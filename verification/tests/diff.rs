//! The positional diff and its labels.

use litegraft::btree::PageKind;
use litegraft::btree::PageOwner;
use litegraft::diff::diff_hashes;
use litegraft::diff::owner_label;
use litegraft::diff::Change;
use litegraft::diff::DiffReport;
use litegraft::diff::OwnerDelta;
use litegraft::diff::PageDelta;
use litegraft::sha256::hex_digest;

fn hashes(tags: &[&str]) -> Vec<String> {
    tags.iter().map(|t| hex_digest(t.as_bytes())).collect()
}

#[test]
fn identical_states_produce_an_empty_diff() {
    let a = hashes(&["p1", "p2", "p3"]);
    assert!(diff_hashes(&a, &a).is_empty());
    let report = DiffReport {
        old_pages: 3,
        new_pages: 3,
        page_size: 4096,
        deltas: vec![],
        by_owner: vec![],
    };
    assert!(report.is_empty());
    assert_eq!(
        report.total_changed() + report.total_added() + report.total_removed(),
        0
    );
}

#[test]
fn changed_pages_are_reported_with_one_based_numbers() {
    let old = hashes(&["p1", "p2", "p3"]);
    let new = hashes(&["p1", "P2", "p3"]);
    let d = diff_hashes(&old, &new);
    assert_eq!(
        d,
        vec![PageDelta {
            pgno: 2,
            change: Change::Changed
        }]
    );
}

#[test]
fn grown_file_reports_added_pages() {
    let old = hashes(&["p1"]);
    let new = hashes(&["p1", "p2", "p3"]);
    let d = diff_hashes(&old, &new);
    assert_eq!(
        d,
        vec![
            PageDelta {
                pgno: 2,
                change: Change::Added
            },
            PageDelta {
                pgno: 3,
                change: Change::Added
            },
        ]
    );
}

#[test]
fn shrunk_file_reports_removed_pages() {
    let old = hashes(&["p1", "p2", "p3"]);
    let new = hashes(&["p1"]);
    let d = diff_hashes(&old, &new);
    assert_eq!(d.len(), 2);
    assert!(d.iter().all(|x| x.change == Change::Removed));
    assert_eq!(d[0].pgno, 2);
}

#[test]
fn change_and_growth_combine() {
    let old = hashes(&["p1", "p2"]);
    let new = hashes(&["P1", "p2", "p3"]);
    let d = diff_hashes(&old, &new);
    assert_eq!(
        d,
        vec![
            PageDelta {
                pgno: 1,
                change: Change::Changed
            },
            PageDelta {
                pgno: 3,
                change: Change::Added
            },
        ]
    );
}

#[test]
fn swapping_sides_swaps_additions_and_removals() {
    let a = hashes(&["p1", "p2", "p3"]);
    let b = hashes(&["p1", "x"]);
    let there = diff_hashes(&a, &b);
    let back = diff_hashes(&b, &a);
    assert_eq!(there.len(), back.len());
    assert_eq!(there[0], back[0]);
    assert_eq!(there[1].change, Change::Removed);
    assert_eq!(back[1].change, Change::Added);
    assert_eq!(there[1].pgno, back[1].pgno);
}

#[test]
fn totals_count_each_kind() {
    let delta = |pgno: u32, change: Change| PageDelta { pgno, change };
    let report = DiffReport {
        old_pages: 4,
        new_pages: 4,
        page_size: 512,
        deltas: vec![
            delta(1, Change::Changed),
            delta(2, Change::Changed),
            delta(3, Change::Added),
            delta(4, Change::Removed),
        ],
        by_owner: vec![],
    };
    assert!(!report.is_empty());
    assert_eq!(report.total_changed(), 2);
    assert_eq!(report.total_added(), 1);
    assert_eq!(report.total_removed(), 1);
}

#[test]
fn owner_totals_and_change_labels() {
    let o = OwnerDelta {
        owner: "users".into(),
        changed: 3,
        added: 2,
        removed: 1,
    };
    assert_eq!(o.total(), 6);
    assert_eq!(Change::Changed.label(), "changed");
    assert_eq!(Change::Added.label(), "added");
    assert_eq!(Change::Removed.label(), "removed");
}

#[test]
fn owner_label_uses_names_for_btrees_and_parens_for_bookkeeping() {
    let named = PageOwner {
        kind: PageKind::BTree,
        owner: Some("users".into()),
    };
    assert_eq!(owner_label(&named), "users");
    let overflow = PageOwner {
        kind: PageKind::Overflow,
        owner: Some("blobs".into()),
    };
    assert_eq!(owner_label(&overflow), "blobs");
    let free = PageOwner {
        kind: PageKind::Freelist,
        owner: None,
    };
    assert_eq!(owner_label(&free), "(freelist)");
}

#[test]
fn every_kind_has_a_label() {
    for (kind, label) in [
        (PageKind::BTree, "btree"),
        (PageKind::Overflow, "overflow"),
        (PageKind::Freelist, "freelist"),
        (PageKind::PtrMap, "ptrmap"),
        (PageKind::LockByte, "lockbyte"),
        (PageKind::Unattributed, "unattributed"),
    ] {
        assert_eq!(kind.label(), label);
        assert_eq!(owner_label(&PageOwner { kind, owner: None }), format!("({label})"));
    }
}
