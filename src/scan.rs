//! A whole scan over the contents of the files found: extraction from each,
//! merge into one table, and the report.
use vstd::prelude::*;
use crate::directive::{directive_set, string_views, DirectiveMatcher};
use crate::tally::{
    is_report_of, lemma_merge_order_independent, lemma_no_identifiers_empty_table,
    lemma_report_unique, report_views, tally_of, FrequencyTable,
};

verus! {

/// The identifier set that one file contributes: none where it could not be
/// read.
pub open spec fn contributed(content: Option<String>) -> Set<Seq<char>> {
    match content {
        Some(c) => directive_set(c@),
        None => Set::empty(),
    }
}

/// The identifier set that each file contributes.
pub open spec fn contributions(contents: Seq<Option<String>>) -> Seq<Set<Seq<char>>> {
    contents.map_values(|c: Option<String>| contributed(c))
}

/// The report over files with these contents, `None` for a file that could
/// not be read. Files that contribute no identifier, or no files at all, give
/// an empty report.
pub fn search(contents: &Vec<Option<String>>) -> (v: Vec<(String, usize)>)
    ensures
        is_report_of(v@, tally_of(contributions(contents@))),
        forall|i: int, j: int| 0 <= i < j < v.len() ==> (#[trigger] v@[i]).1 >= (#[trigger] v@[j]).1,
        (forall|i: int|
            0 <= i < contents.len() ==> #[trigger] contributed(contents@[i])
                == Set::<Seq<char>>::empty()) ==> v.len() == 0,
{
    let m = DirectiveMatcher::new();
    let ghost cs = contributions(contents@);
    let mut table = FrequencyTable::new();
    let mut i: usize = 0;
    assert(tally_of(cs.take(0)) =~= Map::<Seq<char>, nat>::empty());
    while i < contents.len()
        invariant
            i <= contents.len(),
            m.wf(),
            cs == contributions(contents@),
            table.wf(),
            table.files_merged() == i,
            table@ == tally_of(cs.take(i as int)),
        decreases contents.len() - i,
    {
        let ids = match &contents[i] {
            Some(c) => m.extract(c.as_str()),
            None => Vec::new(),
        };
        proof {
            assert(string_views(ids@).to_set() =~= cs[i as int]);
        }
        table.add_file(&ids);
        proof {
            assert(cs.take(i + 1).drop_last() =~= cs.take(i as int));
            assert(table@ =~= tally_of(cs.take(i + 1)));
        }
        i = i + 1;
    }
    assert(cs.take(i as int) =~= cs);
    let v = table.report();
    proof {
        if forall|i: int|
            0 <= i < contents.len() ==> #[trigger] contributed(contents@[i]) == Set::<
                Seq<char>,
            >::empty() {
            assert forall|i: int| 0 <= i < cs.len() implies #[trigger] cs[i] == Set::<
                Seq<char>,
            >::empty() by {
                assert(contributed(contents@[i]) == Set::<Seq<char>>::empty());
            }
            lemma_no_identifiers_empty_table(cs);
            if v.len() > 0 {
                assert(table@.contains_key(v@[0].0@));
            }
        }
    }
    v
}

/// A scan does not depend on the order of the files: contents whose
/// contributed identifier sets are the same multiset, in whatever order, give
/// the same report.
pub proof fn lemma_search_order_independent(
    a: Seq<Option<String>>,
    b: Seq<Option<String>>,
    r1: Seq<(String, usize)>,
    r2: Seq<(String, usize)>,
)
    requires
        contributions(a).to_multiset() == contributions(b).to_multiset(),
        is_report_of(r1, tally_of(contributions(a))),
        is_report_of(r2, tally_of(contributions(b))),
    ensures
        report_views(r1) == report_views(r2),
{
    lemma_merge_order_independent(contributions(a), contributions(b));
    lemma_report_unique(r1, r2, tally_of(contributions(a)));
}

} // verus!
