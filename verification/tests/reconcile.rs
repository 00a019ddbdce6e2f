use paxmark::delta::Delta;
use paxmark::delta::Delta::{Disable, Enable, Keep};
use paxmark::marks::{key_of, Cli, EMUTRAMP, MPROTECT, PAGEEXEC, RANDMMAP, SEGMEXEC};
use paxmark::reconcile::{reconcile, remark};
use paxmark::stored::get_value;
use std::collections::BTreeMap;
use std::path::PathBuf;

fn directives(p: Delta, e: Delta, m: Delta, r: Delta, s: Delta) -> BTreeMap<u32, Delta> {
    let mut delta = BTreeMap::new();
    delta.insert('P' as u32, p);
    delta.insert('E' as u32, e);
    delta.insert('M' as u32, m);
    delta.insert('R' as u32, r);
    delta.insert('S' as u32, s);
    delta
}

fn keep_all() -> BTreeMap<u32, Delta> {
    directives(Keep, Keep, Keep, Keep, Keep)
}

fn no_requests() -> Cli {
    Cli {
        binary: PathBuf::from("a.out"),
        e_pageexec: false,
        d_pageexec: false,
        e_emutramp: false,
        d_emutramp: false,
        e_mprotect: false,
        d_mprotect: false,
        e_randmmap: false,
        d_randmmap: false,
        e_segmexec: false,
        d_segmexec: false,
    }
}

#[test]
fn key_of_folds_case() {
    assert_eq!(key_of('p'), 'P' as u32);
    assert_eq!(key_of('P'), 'P' as u32);
    assert_eq!(key_of('s'), 0x53);
    assert_eq!(key_of('1'), '1' as u32);
    assert_eq!(key_of('é'), 'é' as u32);
}

#[test]
fn mark_letters() {
    assert_eq!(
        [PAGEEXEC, EMUTRAMP, MPROTECT, RANDMMAP, SEGMEXEC],
        ['P', 'E', 'M', 'R', 'S']
    );
}

#[test]
fn get_delta_without_requests_keeps_all() {
    assert_eq!(no_requests().get_delta(), keep_all());
}

#[test]
fn get_delta_follows_each_pair() {
    let mut cli = no_requests();
    cli.e_pageexec = true;
    cli.d_emutramp = true;
    cli.e_mprotect = true;
    cli.d_mprotect = true;
    cli.d_segmexec = true;
    assert_eq!(
        cli.get_delta(),
        directives(Enable, Disable, Enable, Keep, Disable)
    );
}

#[test]
fn enable_and_disable_on_present_marks() {
    let delta = directives(Enable, Keep, Disable, Keep, Keep);
    assert_eq!(reconcile("pEmRS", delta), (String::from("PEmRS"), true));
}

#[test]
fn duplicate_and_missing_mark() {
    assert_eq!(
        reconcile("PPEMR", keep_all()),
        (String::from("PEMRS"), false)
    );
}

#[test]
fn duplicate_uses_first_occurrence() {
    assert_eq!(
        reconcile("pPEMRS", keep_all()),
        (String::from("pEMRS"), false)
    );
    assert_eq!(
        reconcile("PpEMRS", keep_all()),
        (String::from("PEMRS"), false)
    );
    let (out, valid) = reconcile("sSsSsS", keep_all());
    assert_eq!(out, "sEMPR");
    assert_eq!(out.chars().count(), 5);
    assert!(!valid);
}

#[test]
fn empty_input_gives_defaults() {
    assert_eq!(reconcile("", keep_all()), (String::from("EMPRS"), true));
    assert_eq!(
        reconcile("", directives(Enable, Keep, Disable, Keep, Disable)),
        (String::from("EmPRs"), true)
    );
}

#[test]
fn unknown_characters_only() {
    assert_eq!(
        reconcile("xyz-1", keep_all()),
        (String::from("EMPRS"), false)
    );
    assert_eq!(reconcile("é", keep_all()), (String::from("EMPRS"), false));
}

#[test]
fn unknown_character_among_marks() {
    assert_eq!(
        reconcile("PE?MRS", keep_all()),
        (String::from("PEMRS"), false)
    );
}

#[test]
fn keep_on_canonical_input_is_identity() {
    for s in ["PEMRS", "pemrs", "SRMEP", "sRmEp", "EMPRS", "mPeSr"] {
        assert_eq!(reconcile(s, keep_all()), (String::from(s), true));
    }
}

#[test]
fn second_run_changes_nothing() {
    for s in ["", "P", "PPEMR", "xpq", "srm", "PEMRSPEMRS", "eeeee"] {
        let delta = directives(Enable, Disable, Keep, Keep, Disable);
        let (first, _) = reconcile(s, delta);
        assert_eq!(reconcile(&first, keep_all()), (first.clone(), true));
    }
}

#[test]
fn enable_gives_upper_case() {
    let delta = directives(Enable, Enable, Enable, Enable, Enable);
    assert_eq!(reconcile("pEmrS", delta), (String::from("PEMRS"), true));
    let delta = directives(Enable, Enable, Enable, Enable, Enable);
    assert_eq!(reconcile("rs", delta), (String::from("RSEMP"), true));
}

#[test]
fn disable_gives_lower_case() {
    let delta = directives(Disable, Disable, Disable, Disable, Disable);
    assert_eq!(reconcile("pEmrS", delta), (String::from("pemrs"), true));
}

#[test]
fn disable_on_missing_mark_gives_lower_case() {
    let delta = directives(Keep, Keep, Disable, Keep, Keep);
    assert_eq!(reconcile("PE", delta), (String::from("PEmRS"), true));
}

#[test]
fn keep_on_missing_mark_gives_upper_case() {
    assert_eq!(reconcile("pe", keep_all()), (String::from("peMRS"), true));
}

#[test]
fn missing_marks_come_in_ascending_order() {
    assert_eq!(reconcile("S", keep_all()), (String::from("SEMPR"), true));
    assert_eq!(reconcile("r", keep_all()), (String::from("rEMPS"), true));
}

#[test]
fn remark_from_command_line() {
    let mut cli = no_requests();
    cli.e_pageexec = true;
    cli.d_mprotect = true;
    assert_eq!(remark(&cli, "pEmRS"), (String::from("PEmRS"), true));
    assert_eq!(remark(&cli, "PEMRS"), (String::from("PEmRS"), true));
    assert_eq!(remark(&cli, "zz"), (String::from("EmPRS"), false));
}

#[test]
fn get_value_decodes_stored_bytes() {
    assert_eq!(get_value(Some(vec![0x70, 0x45, 0x6d, 0x52, 0x53])), "pEmRS");
    assert_eq!(get_value(Some(vec![0xc3, 0xa9, 0x50])), "éP");
    assert_eq!(get_value(Some(Vec::new())), "");
}

#[test]
fn get_value_defaults() {
    assert_eq!(get_value(None), "PEMRS");
    assert_eq!(get_value(Some(vec![0x50, 0xff, 0x45])), "PEMRS");
    assert_eq!(get_value(Some(vec![0xc3])), "PEMRS");
}

#[test]
fn second_run_with_same_directives_changes_nothing() {
    for s in ["", "P", "PPEMR", "xpq", "srm", "pemrs", "eeeee"] {
        let (first, _) = reconcile(s, directives(Enable, Disable, Keep, Keep, Disable));
        assert_eq!(
            reconcile(&first, directives(Enable, Disable, Keep, Keep, Disable)),
            (first.clone(), true)
        );
    }
}

#[test]
fn output_has_one_letter_for_each_mark() {
    for s in ["", "P", "PPEMR", "xpq", "srm", "PEMRSPEMRS", "eeeee", "éPé"] {
        let (out, _) = reconcile(s, directives(Keep, Disable, Enable, Keep, Keep));
        let mut keys: Vec<u32> = out.chars().map(key_of).collect();
        keys.sort();
        assert_eq!(keys, vec![0x45, 0x4d, 0x50, 0x52, 0x53]);
    }
}
