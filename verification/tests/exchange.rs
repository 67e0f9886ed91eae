use gm_core::docmap::DocMap;
use gm_core::exchange::{merge_map, MergeCounts, MergeReport};

#[test]
fn an_import_counts_what_it_added_replaced_and_left_alone() {
    let mut base = DocMap::new();
    base.insert("A", "1");
    base.insert("B", "2");
    let mut incoming = DocMap::new();
    incoming.insert("B", "22");
    incoming.insert("A", "1");
    incoming.insert("C", "3");
    let mut counts = MergeCounts::new();
    merge_map(&mut base, &incoming, &mut counts);
    assert_eq!(counts, MergeCounts { added: 1, replaced: 1, unchanged: 1 });
    assert_eq!(base.get("B").cloned(), Some("22".to_string()));
    assert_eq!(base.get("C").cloned(), Some("3".to_string()));
    assert_eq!(base.len(), 3);
    let report = MergeReport::new();
    assert_eq!(report.models, MergeCounts { added: 0, replaced: 0, unchanged: 0 });
}
