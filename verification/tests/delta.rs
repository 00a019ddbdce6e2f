use paxmark::delta::Delta;
use paxmark::delta::Delta::{Disable, Enable, Keep};

#[test]
fn cli_to_flag_delta() {
    // new(enabled, disabled) -> Delta
    // Precedence:
    // - if enabled  -> Enable
    // - if disabled -> Disable
    // - if neither  -> Keep
    assert_eq!(Delta::new(true, true), Enable);
    assert_eq!(Delta::new(true, false), Enable);
    assert_eq!(Delta::new(false, true), Disable);
    assert_eq!(Delta::new(false, false), Keep);
}

#[test]
fn delta_apply() {
    let e = Enable;
    let d = Disable;
    let k = Keep;

    assert_eq!(e.apply('Q'), 'Q');
    assert_eq!(e.apply('q'), 'Q');
    assert_eq!(d.apply('Q'), 'q');
    assert_eq!(d.apply('q'), 'q');
    assert_eq!(k.apply('Q'), 'Q');
    assert_eq!(k.apply('q'), 'q');
}

#[test]
fn delta_apply_leaves_other_characters() {
    for c in ['1', '-', ' ', '@', '[', '`', '{', 'é', 'É', 'ß', '\u{10FFFF}'] {
        assert_eq!(Enable.apply(c), c);
        assert_eq!(Disable.apply(c), c);
        assert_eq!(Keep.apply(c), c);
    }
}

#[test]
fn delta_apply_edges_of_the_alphabet() {
    assert_eq!(Enable.apply('a'), 'A');
    assert_eq!(Enable.apply('z'), 'Z');
    assert_eq!(Disable.apply('A'), 'a');
    assert_eq!(Disable.apply('Z'), 'z');
}
