//! The frequency table that per-file identifier sets are merged into, and the
//! report sorted from it.
use vstd::prelude::*;
use crate::directive::{directive_set, string_views};
use crate::text::{
    chars_lt, chars_of, insert_sorted, lemma_seq_lt_irreflexive, lemma_seq_lt_total,
    lemma_seq_lt_transitive, prefix, seq_lt, strictly_sorted, string_of, views,
};

verus! {

/// The number of files among `files` whose identifier set holds `id`.
pub open spec fn file_count(files: Seq<Set<Seq<char>>>, id: Seq<char>) -> nat
    decreases files.len(),
{
    if files.len() == 0 {
        0
    } else {
        file_count(files.drop_last(), id) + if files.last().contains(id) {
            1nat
        } else {
            0nat
        }
    }
}

/// The frequency table of `files`: each identifier that some file names, with
/// the number of files that name it.
pub open spec fn tally_of(files: Seq<Set<Seq<char>>>) -> Map<Seq<char>, nat> {
    Map::new(|id: Seq<char>| file_count(files, id) > 0, |id: Seq<char>| file_count(files, id))
}

/// `m` after one file with identifier set `s` is merged into it.
pub open spec fn merged(m: Map<Seq<char>, nat>, s: Set<Seq<char>>) -> Map<Seq<char>, nat> {
    Map::new(
        |id: Seq<char>| m.contains_key(id) || s.contains(id),
        |id: Seq<char>|
            (if m.contains_key(id) {
                m[id]
            } else {
                0nat
            }) + (if s.contains(id) {
                1nat
            } else {
                0nat
            }),
    )
}

/// The identifier set of each file of a list.
pub open spec fn file_sets(sets: Seq<Vec<String>>) -> Seq<Set<Seq<char>>> {
    sets.map_values(|v: Vec<String>| string_views(v@).to_set())
}

/// Report order: higher count first; among equal counts, the identifier that
/// comes first lexicographically.
pub open spec fn ranks_before(a: (Seq<char>, nat), b: (Seq<char>, nat)) -> bool {
    a.1 > b.1 || (a.1 == b.1 && seq_lt(a.0, b.0))
}

/// The contents of each entry of a report.
pub open spec fn report_views(r: Seq<(String, usize)>) -> Seq<(Seq<char>, nat)> {
    r.map_values(|e: (String, usize)| (e.0@, e.1 as nat))
}

/// The contents of each entry of a list of identifier and count.
pub open spec fn pair_views(r: Seq<(Vec<char>, usize)>) -> Seq<(Seq<char>, nat)> {
    r.map_values(|e: (Vec<char>, usize)| (e.0@, e.1 as nat))
}

/// `r` lists the entries of table `m`, each once, in report order.
pub open spec fn is_report_of(r: Seq<(String, usize)>, m: Map<Seq<char>, nat>) -> bool {
    &&& strictly_ranked(report_views(r))
    &&& forall|i: int|
        0 <= i < r.len() ==> m.contains_key((#[trigger] r[i]).0@) && m[r[i].0@] == r[i].1 as nat
    &&& forall|k: Seq<char>|
        #[trigger] m.contains_key(k) ==> exists|i: int| 0 <= i < r.len() && (#[trigger] r[i]).0@ == k
}

/// Every entry of a strictly increasing list ranks before every later one.
pub open spec fn strictly_ranked(s: Seq<(Seq<char>, nat)>) -> bool {
    forall|i: int, j: int| 0 <= i < j < s.len() ==> ranks_before(#[trigger] s[i], #[trigger] s[j])
}

proof fn lemma_insert_to_set(s: Seq<(Seq<char>, nat)>, j: int, e: (Seq<char>, nat))
    requires
        0 <= j <= s.len(),
    ensures
        s.insert(j, e).to_set() == s.to_set().insert(e),
{
    let t = s.insert(j, e);
    assert forall|y: (Seq<char>, nat)| t.to_set().contains(y) <==> s.to_set().insert(e).contains(y) by {
        if t.to_set().contains(y) {
            let k = choose|k: int| 0 <= k < t.len() && t[k] == y;
            if k < j {
                assert(s[k] == y);
            } else if k > j {
                assert(s[k - 1] == y);
            }
        }
        if s.to_set().contains(y) {
            let k = choose|k: int| 0 <= k < s.len() && s[k] == y;
            if k < j {
                assert(t[k] == y);
            } else {
                assert(t[k + 1] == y);
            }
        }
        if y == e {
            assert(t[j] == y);
        }
    }
    assert(t.to_set() =~= s.to_set().insert(e));
}

proof fn lemma_ranks_transitive(a: (Seq<char>, nat), b: (Seq<char>, nat), c: (Seq<char>, nat))
    requires
        ranks_before(a, b),
        ranks_before(b, c),
    ensures
        ranks_before(a, c),
{
    if a.1 == b.1 && b.1 == c.1 {
        lemma_seq_lt_transitive(a.0, b.0, c.0);
    }
}

/// Tests whether the entry `e` ranks before `(k, c)`.
fn entry_ranks_before(e: &(Vec<char>, usize), k: &Vec<char>, c: usize) -> (r: bool)
    ensures
        r == ranks_before((e.0@, e.1 as nat), (k@, c as nat)),
{
    e.1 > c || (e.1 == c && chars_lt(&e.0, k))
}

/// Adds the entry `(k, c)`, whose identifier the list does not hold, to a
/// strictly ranked list, keeping it strictly ranked.
fn insert_ranked(out: &mut Vec<(Vec<char>, usize)>, k: &Vec<char>, c: usize)
    requires
        strictly_ranked(pair_views(old(out)@)),
        forall|x: int| 0 <= x < old(out).len() ==> (#[trigger] pair_views(old(out)@)[x]).0 != k@,
    ensures
        strictly_ranked(pair_views(final(out)@)),
        exists|j: int|
            0 <= j <= old(out).len() && pair_views(final(out)@) == pair_views(old(out)@).insert(
                j,
                (k@, c as nat),
            ),
{
    let ghost s0 = pair_views(out@);
    let ghost e = (k@, c as nat);
    let mut j: usize = 0;
    while j < out.len() && entry_ranks_before(&out[j], k, c)
        invariant
            j <= out.len(),
            pair_views(out@) == s0,
            strictly_ranked(s0),
            e == (k@, c as nat),
            forall|x: int| 0 <= x < j ==> ranks_before(#[trigger] s0[x], e),
        decreases out.len() - j,
    {
        assert(s0[j as int] == (out@[j as int].0@, out@[j as int].1 as nat));
        j = j + 1;
    }
    let key = prefix(k, k.len());
    assert(k@.take(k.len() as int) =~= k@);
    out.insert(j, (key, c));
    proof {
        let s1 = pair_views(out@);
        assert(s1 =~= s0.insert(j as int, e));
        if j < s0.len() {
            assert(s0[j as int].0 != e.0);
            if s0[j as int].1 == e.1 {
                lemma_seq_lt_total(s0[j as int].0, e.0);
            }
            assert(ranks_before(e, s0[j as int]));
        }
        assert forall|a: int, b: int| 0 <= a < b < s1.len() implies ranks_before(
            #[trigger] s1[a],
            #[trigger] s1[b],
        ) by {
            if b < j {
            } else if b == j {
            } else if a <= j {
                if b - 1 > j {
                    lemma_ranks_transitive(e, s0[j as int], s0[b - 1]);
                }
                assert(ranks_before(e, s1[b]));
                if a < j {
                    lemma_ranks_transitive(s1[a], e, s1[b]);
                }
            } else {
                assert(s1[a] == s0[a - 1] && s1[b] == s0[b - 1]);
            }
        }
    }
}

/// Occurrence counts of identifiers over the files merged so far.
pub struct FrequencyTable {
    keys: Vec<Vec<char>>,
    counts: Vec<usize>,
    files: usize,
}

impl View for FrequencyTable {
    type V = Map<Seq<char>, nat>;

    closed spec fn view(&self) -> Map<Seq<char>, nat> {
        Map::new(
            |k: Seq<char>| exists|i: int| 0 <= i < self.keys.len() && #[trigger] self.keys@[i]@ == k,
            |k: Seq<char>| self.counts@[self.key_index(k)] as nat,
        )
    }
}

impl FrequencyTable {
    /// A position at which `k` is held, where there is one.
    closed spec fn key_index(&self, k: Seq<char>) -> int {
        choose|i: int| 0 <= i < self.keys.len() && #[trigger] self.keys@[i]@ == k
    }

    /// Keys strictly increasing, one positive count per key, no count above
    /// the number of files merged.
    pub closed spec fn wf(&self) -> bool {
        &&& self.keys_ok()
        &&& forall|i: int| 0 <= i < self.counts.len() ==> #[trigger] self.counts@[i] <= self.files
    }

    /// Keys strictly increasing, one positive count per key.
    closed spec fn keys_ok(&self) -> bool {
        &&& self.keys.len() == self.counts.len()
        &&& strictly_sorted(views(self.keys@))
        &&& forall|i: int| 0 <= i < self.counts.len() ==> 0 < #[trigger] self.counts@[i]
    }

    /// The number of files merged so far.
    pub closed spec fn files_merged(&self) -> nat {
        self.files as nat
    }

    proof fn lemma_lookup(&self, j: int)
        requires
            self.keys_ok(),
            0 <= j < self.keys.len(),
        ensures
            self@.contains_key(self.keys@[j]@),
            self@[self.keys@[j]@] == self.counts@[j] as nat,
    {
        let k = self.keys@[j]@;
        assert(self.keys@[j]@ == k);
        let i = self.key_index(k);
        if i != j {
            assert(views(self.keys@)[i] == k && views(self.keys@)[j] == k);
            lemma_seq_lt_irreflexive(k);
            if i < j {
                assert(seq_lt(views(self.keys@)[i], views(self.keys@)[j]));
            } else {
                assert(seq_lt(views(self.keys@)[j], views(self.keys@)[i]));
            }
        }
        assert(self@.contains_key(k));
        assert(self@[k] == self.counts@[i] as nat);
    }

    /// The table's entries, in increasing order of identifier.
    closed spec fn entries(&self) -> Seq<(Seq<char>, nat)> {
        Seq::new(self.keys.len() as nat, |a: int| (self.keys@[a]@, self.counts@[a] as nat))
    }

    proof fn lemma_bounded(&self)
        requires
            self.wf(),
        ensures
            forall|k: Seq<char>| #[trigger] self@.contains_key(k) ==> self@[k] <= self.files,
    {
        assert forall|k: Seq<char>| #[trigger] self@.contains_key(k) implies self@[k] <= self.files by {
            self.lemma_lookup(self.key_index(k));
        }
    }

    /// An empty table.
    pub fn new() -> (r: FrequencyTable)
        ensures
            r.wf(),
            r@ == Map::<Seq<char>, nat>::empty(),
            r.files_merged() == 0,
    {
        let r = FrequencyTable { keys: Vec::new(), counts: Vec::new(), files: 0 };
        assert(r@ =~= Map::<Seq<char>, nat>::empty());
        r
    }

    /// The number of files merged so far.
    pub fn merged_files(&self) -> (r: usize)
        ensures
            r == self.files_merged(),
    {
        self.files
    }

    /// The number of distinct identifiers in the table.
    pub fn len(&self) -> (r: usize)
        requires
            self.wf(),
        ensures
            r == self@.len(),
    {
        proof {
            let ks = views(self.keys@);
            assert forall|k: Seq<char>| self@.contains_key(k) <==> ks.to_set().contains(k) by {
                if self@.contains_key(k) {
                    let i = choose|i: int| 0 <= i < self.keys.len() && #[trigger] self.keys@[i]@ == k;
                    assert(ks[i] == k);
                }
                if ks.to_set().contains(k) {
                    let i = choose|i: int| 0 <= i < ks.len() && ks[i] == k;
                    assert(self.keys@[i]@ == k);
                }
            }
            assert(self@.dom() =~= ks.to_set());
            assert forall|a: int, b: int| 0 <= a < ks.len() && 0 <= b < ks.len() && a != b
                implies ks[a] != ks[b] by {
                lemma_seq_lt_irreflexive(ks[a]);
                if a < b {
                    assert(seq_lt(ks[a], ks[b]));
                } else {
                    assert(seq_lt(ks[b], ks[a]));
                }
            }
            assert(ks.no_duplicates());
            ks.unique_seq_to_set();
        }
        self.keys.len()
    }

    /// Adds one to the count of `k`, entering it with count one where absent.
    fn bump(&mut self, k: &Vec<char>)
        requires
            old(self).keys_ok(),
            old(self)@.contains_key(k@) ==> old(self)@[k@] < usize::MAX,
        ensures
            final(self).keys_ok(),
            final(self).files == old(self).files,
            final(self)@ == old(self)@.insert(
                k@,
                if old(self)@.contains_key(k@) {
                    old(self)@[k@] + 1
                } else {
                    1nat
                },
            ),
    {
        let ghost s0 = views(self.keys@);
        let ghost m0 = self@;
        let mut j: usize = 0;
        while j < self.keys.len() && chars_lt(&self.keys[j], k)
            invariant
                j <= self.keys.len(),
                views(self.keys@) == s0,
                strictly_sorted(s0),
                forall|i: int| 0 <= i < j ==> seq_lt(#[trigger] s0[i], k@),
            decreases self.keys.len() - j,
        {
            j = j + 1;
        }
        if j < self.keys.len() && !chars_lt(k, &self.keys[j]) {
            proof {
                if s0[j as int] != k@ {
                    lemma_seq_lt_total(s0[j as int], k@);
                }
                assert(self.keys@[j as int]@ == k@);
                self.lemma_lookup(j as int);
            }
            let c = self.counts[j];
            self.counts.set(j, c + 1);
            proof {
                assert forall|kk: Seq<char>| #[trigger] self@.contains_key(kk) == m0.insert(k@, m0[k@] + 1).contains_key(kk) by {}
                assert forall|kk: Seq<char>| self@.contains_key(kk) implies #[trigger] self@[kk] == m0.insert(k@, m0[k@] + 1)[kk] by {
                    let i = choose|i: int| 0 <= i < self.keys.len() && #[trigger] self.keys@[i]@ == kk;
                    self.lemma_lookup(i);
                    old(self).lemma_lookup(i);
                    if i != j {
                        lemma_seq_lt_irreflexive(kk);
                        if i < j {
                            assert(seq_lt(s0[i], s0[j as int]));
                        } else {
                            assert(seq_lt(s0[j as int], s0[i]));
                        }
                    }
                }
                assert(self@ =~= m0.insert(k@, m0[k@] + 1));
            }
        } else {
            proof {
                if j < s0.len() {
                    lemma_seq_lt_total(s0[j as int], k@);
                }
                assert forall|i: int| 0 <= i < s0.len() implies s0[i] != k@ by {
                    lemma_seq_lt_irreflexive(k@);
                    if i > j {
                        assert(seq_lt(s0[j as int], s0[i]));
                        lemma_seq_lt_transitive(k@, s0[j as int], s0[i]);
                    }
                }
                assert(!m0.contains_key(k@)) by {
                    if m0.contains_key(k@) {
                        let i = choose|i: int| 0 <= i < self.keys.len() && #[trigger] self.keys@[i]@ == k@;
                        assert(s0[i] == k@);
                    }
                }
            }
            let item = prefix(k, k.len());
            assert(k@.take(k.len() as int) =~= k@);
            self.keys.insert(j, item);
            self.counts.insert(j, 1);
            proof {
                let s1 = views(self.keys@);
                assert(s1 =~= s0.insert(j as int, k@));
                assert forall|a: int, b: int| 0 <= a < b < s1.len() implies seq_lt(
                    #[trigger] s1[a],
                    #[trigger] s1[b],
                ) by {
                    if b < j {
                    } else if b == j {
                    } else if a <= j {
                        if b - 1 > j {
                            lemma_seq_lt_transitive(k@, s0[j as int], s0[b - 1]);
                        }
                        assert(seq_lt(k@, s1[b]));
                        if a < j {
                            lemma_seq_lt_transitive(s1[a], k@, s1[b]);
                        }
                    } else {
                        assert(s1[a] == s0[a - 1] && s1[b] == s0[b - 1]);
                    }
                }
                assert forall|kk: Seq<char>| #[trigger] self@.contains_key(kk) == m0.insert(k@, 1).contains_key(kk) by {
                    if self@.contains_key(kk) {
                        let i = choose|i: int| 0 <= i < self.keys.len() && #[trigger] self.keys@[i]@ == kk;
                        if i < j {
                            assert(old(self).keys@[i]@ == kk);
                        } else if i > j {
                            assert(old(self).keys@[i - 1]@ == kk);
                        }
                    }
                    if m0.contains_key(kk) {
                        let i = choose|i: int| 0 <= i < old(self).keys.len() && #[trigger] old(self).keys@[i]@ == kk;
                        if i < j {
                            assert(self.keys@[i]@ == kk);
                        } else {
                            assert(self.keys@[i + 1]@ == kk);
                        }
                    }
                    if kk == k@ {
                        assert(self.keys@[j as int]@ == kk);
                    }
                }
                assert forall|kk: Seq<char>| self@.contains_key(kk) implies #[trigger] self@[kk] == m0.insert(k@, 1)[kk] by {
                    let i = choose|i: int| 0 <= i < self.keys.len() && #[trigger] self.keys@[i]@ == kk;
                    self.lemma_lookup(i);
                    if i < j {
                        old(self).lemma_lookup(i);
                    } else if i > j {
                        old(self).lemma_lookup(i - 1);
                    }
                }
                assert(self@ =~= m0.insert(k@, 1));
            }
        }
    }

    /// The table's entries, higher count first, equal counts in increasing
    /// order of identifier.
    pub fn report(&self) -> (r: Vec<(String, usize)>)
        requires
            self.wf(),
        ensures
            is_report_of(r@, self@),
            forall|i: int, j: int|
                0 <= i < j < r.len() ==> (#[trigger] r@[i]).1 >= (#[trigger] r@[j]).1,
    {
        let ghost te = self.entries();
        let mut out: Vec<(Vec<char>, usize)> = Vec::new();
        let mut i: usize = 0;
        assert(pair_views(out@).to_set() =~= te.take(0).to_set());
        while i < self.keys.len()
            invariant
                self.wf(),
                te == self.entries(),
                i <= self.keys.len(),
                strictly_ranked(pair_views(out@)),
                pair_views(out@).to_set() == te.take(i as int).to_set(),
            decreases self.keys.len() - i,
        {
            let ghost s0 = pair_views(out@);
            proof {
                assert forall|x: int| 0 <= x < out.len() implies (#[trigger] s0[x]).0
                    != self.keys@[i as int]@ by {
                    assert(te.take(i as int).to_set().contains(s0[x]));
                    let a = choose|a: int| 0 <= a < i && te.take(i as int)[a] == s0[x];
                    let ks = views(self.keys@);
                    assert(seq_lt(ks[a], ks[i as int]));
                    lemma_seq_lt_irreflexive(ks[i as int]);
                }
            }
            insert_ranked(&mut out, &self.keys[i], self.counts[i]);
            proof {
                let e = te[i as int];
                let j = choose|j: int|
                    0 <= j <= s0.len() && pair_views(out@) == s0.insert(j, (self.keys@[i as int]@, self.counts@[i as int] as nat));
                lemma_insert_to_set(s0, j, e);
                assert(te.take(i + 1) =~= te.take(i as int).push(e));
                te.take(i as int).lemma_push_to_set_commute(e);
            }
            i = i + 1;
        }
        assert(te.take(i as int) =~= te);
        let mut r: Vec<(String, usize)> = Vec::new();
        let mut x: usize = 0;
        while x < out.len()
            invariant
                x <= out.len(),
                report_views(r@) == pair_views(out@).take(x as int),
            decreases out.len() - x,
        {
            let name = string_of(&out[x].0);
            let ghost before = report_views(r@);
            r.push((name, out[x].1));
            assert(report_views(r@) =~= before.push((out@[x as int].0@, out@[x as int].1 as nat)));
            assert(report_views(r@) =~= pair_views(out@).take(x + 1));
            x = x + 1;
        }
        proof {
            let rv = report_views(r@);
            assert(rv =~= pair_views(out@));
            assert forall|a: int, b: int|
                0 <= a < b < r.len() implies (#[trigger] r@[a]).1 >= (#[trigger] r@[b]).1 by {
                assert(ranks_before(rv[a], rv[b]));
            }
            assert forall|a: int| 0 <= a < r.len() implies self@.contains_key((#[trigger] r@[a]).0@)
                && self@[r@[a].0@] == r@[a].1 as nat by {
                assert(rv[a] == (r@[a].0@, r@[a].1 as nat));
                assert(te.to_set().contains(rv[a]));
                let b = choose|b: int| 0 <= b < te.len() && te[b] == rv[a];
                self.lemma_lookup(b);
            }
            assert forall|k: Seq<char>| #[trigger] self@.contains_key(k) implies exists|a: int|
                0 <= a < r.len() && (#[trigger] r@[a]).0@ == k by {
                let b = self.key_index(k);
                assert(te[b].0 == k);
                assert(rv.to_set().contains(te[b]));
                let a = choose|a: int| 0 <= a < rv.len() && rv[a] == te[b];
                assert(rv[a] == (r@[a].0@, r@[a].1 as nat));
            }
        }
        r
    }

    /// Merges the identifier set of one more file: each distinct identifier
    /// of `ids` counts once, however often it is listed.
    pub fn add_file(&mut self, ids: &Vec<String>)
        requires
            old(self).wf(),
            old(self).files_merged() < usize::MAX,
        ensures
            final(self).wf(),
            final(self).files_merged() == old(self).files_merged() + 1,
            final(self)@ == merged(old(self)@, string_views(ids@).to_set()),
    {
        let ghost given = string_views(ids@);
        let mut u: Vec<Vec<char>> = Vec::new();
        let mut t: usize = 0;
        assert(given.take(0).to_set() =~= Set::<Seq<char>>::empty());
        assert(views(u@).to_set() =~= Set::<Seq<char>>::empty());
        while t < ids.len()
            invariant
                t <= ids.len(),
                given == string_views(ids@),
                strictly_sorted(views(u@)),
                views(u@).to_set() == given.take(t as int).to_set(),
            decreases ids.len() - t,
        {
            let c = chars_of(ids[t].as_str());
            insert_sorted(&mut u, &c);
            proof {
                assert(given.take(t + 1) =~= given.take(t as int).push(given[t as int]));
                given.take(t as int).lemma_push_to_set_commute(given[t as int]);
            }
            t = t + 1;
        }
        assert(given.take(t as int) =~= given);
        let ghost m0 = self@;
        let ghost w = views(u@);
        proof {
            self.lemma_bounded();
            assert(w.take(0).to_set() =~= Set::<Seq<char>>::empty());
            assert(merged(m0, Set::empty()) =~= m0);
        }
        let mut t: usize = 0;
        while t < u.len()
            invariant
                t <= u.len(),
                w == views(u@),
                strictly_sorted(w),
                self.keys_ok(),
                self.files == old(self).files,
                self.files < usize::MAX,
                m0 == old(self)@,
                forall|k: Seq<char>| #[trigger] m0.contains_key(k) ==> m0[k] <= self.files,
                self@ == merged(m0, w.take(t as int).to_set()),
            decreases u.len() - t,
        {
            proof {
                assert(!w.take(t as int).to_set().contains(w[t as int])) by {
                    lemma_seq_lt_irreflexive(w[t as int]);
                    if w.take(t as int).to_set().contains(w[t as int]) {
                        let a = choose|a: int| 0 <= a < t && w.take(t as int)[a] == w[t as int];
                        assert(seq_lt(w[a], w[t as int]));
                    }
                }
            }
            self.bump(&u[t]);
            proof {
                assert(w.take(t + 1) =~= w.take(t as int).push(w[t as int]));
                w.take(t as int).lemma_push_to_set_commute(w[t as int]);
                assert(self@ =~= merged(m0, w.take(t + 1).to_set()));
            }
            t = t + 1;
        }
        assert(w.take(t as int) =~= w);
        proof {
            assert forall|i: int| 0 <= i < self.counts.len() implies #[trigger] self.counts@[i] <= self.files + 1 by {
                self.lemma_lookup(i);
                let k = self.keys@[i]@;
                if m0.contains_key(k) {
                    assert(m0[k] <= old(self).files);
                }
            }
        }
        let ghost before = self@;
        self.files = self.files + 1;
        assert(self@ =~= before);
    }
}

/// Merges the identifier sets of all files into one table.
pub fn tally(sets: &Vec<Vec<String>>) -> (r: FrequencyTable)
    ensures
        r.wf(),
        r.files_merged() == sets.len(),
        r@ == tally_of(file_sets(sets@)),
{
    let ghost fs = file_sets(sets@);
    let mut table = FrequencyTable::new();
    let mut f: usize = 0;
    assert(tally_of(fs.take(0)) =~= Map::<Seq<char>, nat>::empty());
    while f < sets.len()
        invariant
            f <= sets.len(),
            fs == file_sets(sets@),
            table.wf(),
            table.files_merged() == f,
            table@ == tally_of(fs.take(f as int)),
        decreases sets.len() - f,
    {
        table.add_file(&sets[f]);
        proof {
            assert(fs.take(f + 1).drop_last() =~= fs.take(f as int));
            assert(fs[f as int] == string_views(sets@[f as int]@).to_set());
            assert(table@ =~= tally_of(fs.take(f + 1)));
        }
        f = f + 1;
    }
    assert(fs.take(f as int) =~= fs);
    table
}

proof fn lemma_file_count_remove(s: Seq<Set<Seq<char>>>, j: int, id: Seq<char>)
    requires
        0 <= j < s.len(),
    ensures
        file_count(s, id) == file_count(s.remove(j), id) + if s[j].contains(id) {
            1nat
        } else {
            0nat
        },
    decreases s.len(),
{
    if j == s.len() - 1 {
        assert(s.remove(j) =~= s.drop_last());
    } else {
        lemma_file_count_remove(s.drop_last(), j, id);
        assert(s.remove(j).drop_last() =~= s.drop_last().remove(j));
        assert(s.remove(j).last() == s.last());
    }
}

proof fn lemma_file_count_permutation(a: Seq<Set<Seq<char>>>, b: Seq<Set<Seq<char>>>, id: Seq<char>)
    requires
        a.to_multiset() == b.to_multiset(),
    ensures
        file_count(a, id) == file_count(b, id),
    decreases a.len(),
{
    broadcast use vstd::seq_lib::group_to_multiset_ensures;

    if a.len() == 0 {
        assert(a.to_multiset().len() == 0);
        assert(b.to_multiset().len() == b.len());
    } else {
        let x = a.last();
        assert(a.to_multiset().count(x) > 0) by {
            assert(a.contains(x)) by {
                assert(a[a.len() - 1] == x);
            }
        }
        assert(b.contains(x));
        let j = choose|j: int| 0 <= j < b.len() && b[j] == x;
        assert(a.remove(a.len() - 1) =~= a.drop_last());
        assert(a.drop_last().to_multiset() =~= a.to_multiset().remove(x));
        assert(b.remove(j).to_multiset() =~= b.to_multiset().remove(x));
        lemma_file_count_permutation(a.drop_last(), b.remove(j), id);
        lemma_file_count_remove(b, j, id);
    }
}

/// Merging is independent of order: files whose identifier sets form the same
/// multiset, in whatever order they come, give the same frequency table.
pub proof fn lemma_merge_order_independent(a: Seq<Set<Seq<char>>>, b: Seq<Set<Seq<char>>>)
    requires
        a.to_multiset() == b.to_multiset(),
    ensures
        tally_of(a) == tally_of(b),
{
    assert forall|id: Seq<char>| file_count(a, id) == file_count(b, id) by {
        lemma_file_count_permutation(a, b, id);
    }
    assert(tally_of(a) =~= tally_of(b));
}

/// Two files merged one after the other give the same table in either order.
pub proof fn lemma_merge_commutes(m: Map<Seq<char>, nat>, s: Set<Seq<char>>, t: Set<Seq<char>>)
    ensures
        merged(merged(m, s), t) == merged(merged(m, t), s),
{
    assert(merged(merged(m, s), t) =~= merged(merged(m, t), s));
}

/// A file adds exactly one to the count of each identifier it names, however
/// many of its lines name it.
pub proof fn lemma_one_per_file(files: Seq<Set<Seq<char>>>, content: Seq<char>, id: Seq<char>)
    requires
        directive_set(content).contains(id),
    ensures
        file_count(files.push(directive_set(content)), id) == file_count(files, id) + 1,
{
    assert(files.push(directive_set(content)).drop_last() =~= files);
}

/// Files that contribute no identifier, because none was found or none could
/// be read, give an empty table.
pub proof fn lemma_no_identifiers_empty_table(files: Seq<Set<Seq<char>>>)
    requires
        forall|i: int| 0 <= i < files.len() ==> #[trigger] files[i] == Set::<Seq<char>>::empty(),
    ensures
        tally_of(files) == Map::<Seq<char>, nat>::empty(),
{
    assert forall|id: Seq<char>| file_count(files, id) == 0 by {
        lemma_file_count_zero(files, id);
    }
    assert(tally_of(files) =~= Map::<Seq<char>, nat>::empty());
}

proof fn lemma_file_count_zero(files: Seq<Set<Seq<char>>>, id: Seq<char>)
    requires
        forall|i: int| 0 <= i < files.len() ==> #[trigger] files[i] == Set::<Seq<char>>::empty(),
    ensures
        file_count(files, id) == 0,
    decreases files.len(),
{
    if files.len() > 0 {
        assert(files.last() == files[files.len() - 1]);
        lemma_file_count_zero(files.drop_last(), id);
    }
}

proof fn lemma_ranks_irreflexive(a: (Seq<char>, nat))
    ensures
        !ranks_before(a, a),
{
    lemma_seq_lt_irreflexive(a.0);
}

proof fn lemma_ranked_unique(s1: Seq<(Seq<char>, nat)>, s2: Seq<(Seq<char>, nat)>)
    requires
        strictly_ranked(s1),
        strictly_ranked(s2),
        s1.to_set() == s2.to_set(),
    ensures
        s1 == s2,
    decreases s1.len(),
{
    if s1.len() == 0 {
        if s2.len() > 0 {
            assert(s2.to_set().contains(s2[0]));
        }
        assert(s1 =~= s2);
    } else {
        assert(s1.to_set().contains(s1[0]));
        let k = choose|k: int| 0 <= k < s2.len() && s2[k] == s1[0];
        assert(s2.to_set().contains(s2[0]));
        let l = choose|l: int| 0 <= l < s1.len() && s1[l] == s2[0];
        lemma_ranks_irreflexive(s1[0]);
        lemma_ranks_irreflexive(s2[0]);
        if k > 0 && l > 0 {
            assert(ranks_before(s2[0], s2[k]));
            assert(ranks_before(s1[0], s1[l]));
            lemma_ranks_transitive(s1[0], s2[0], s1[0]);
        } else if k > 0 {
            assert(ranks_before(s2[0], s2[k]));
        } else if l > 0 {
            assert(ranks_before(s1[0], s1[l]));
        }
        assert(s1[0] == s2[0]);
        let t1 = s1.drop_first();
        let t2 = s2.drop_first();
        assert forall|y: (Seq<char>, nat)| t1.to_set().contains(y) implies t2.to_set().contains(y) by {
            let i = choose|i: int| 0 <= i < t1.len() && t1[i] == y;
            assert(ranks_before(s1[0], s1[i + 1]));
            assert(s2.to_set().contains(y)) by {
                assert(s1.to_set().contains(s1[i + 1]));
            }
            let j = choose|j: int| 0 <= j < s2.len() && s2[j] == y;
            assert(j != 0);
            assert(t2[j - 1] == y);
        }
        assert forall|y: (Seq<char>, nat)| t2.to_set().contains(y) implies t1.to_set().contains(y) by {
            let i = choose|i: int| 0 <= i < t2.len() && t2[i] == y;
            assert(ranks_before(s2[0], s2[i + 1]));
            assert(s1.to_set().contains(y)) by {
                assert(s2.to_set().contains(s2[i + 1]));
            }
            let j = choose|j: int| 0 <= j < s1.len() && s1[j] == y;
            assert(j != 0);
            assert(t1[j - 1] == y);
        }
        assert(t1.to_set() =~= t2.to_set());
        assert(strictly_ranked(t1)) by {
            assert forall|a: int, b: int| 0 <= a < b < t1.len() implies ranks_before(
                #[trigger] t1[a],
                #[trigger] t1[b],
            ) by {
                assert(ranks_before(s1[a + 1], s1[b + 1]));
            }
        }
        assert(strictly_ranked(t2)) by {
            assert forall|a: int, b: int| 0 <= a < b < t2.len() implies ranks_before(
                #[trigger] t2[a],
                #[trigger] t2[b],
            ) by {
                assert(ranks_before(s2[a + 1], s2[b + 1]));
            }
        }
        lemma_ranked_unique(t1, t2);
        assert(s1 =~= seq![s1[0]] + t1);
        assert(s2 =~= seq![s2[0]] + t2);
    }
}

/// A report is determined by its table: two reports of one table list the
/// same entries in the same order.
pub proof fn lemma_report_unique(r1: Seq<(String, usize)>, r2: Seq<(String, usize)>, m: Map<Seq<char>, nat>)
    requires
        is_report_of(r1, m),
        is_report_of(r2, m),
    ensures
        report_views(r1) == report_views(r2),
{
    let v1 = report_views(r1);
    let v2 = report_views(r2);
    assert forall|y: (Seq<char>, nat)| v1.to_set().contains(y) implies v2.to_set().contains(y) by {
        let i = choose|i: int| 0 <= i < v1.len() && v1[i] == y;
        assert(v1[i] == (r1[i].0@, r1[i].1 as nat));
        assert(m.contains_key(r1[i].0@));
        let j = choose|j: int| 0 <= j < r2.len() && (#[trigger] r2[j]).0@ == r1[i].0@;
        assert(v2[j] == (r2[j].0@, r2[j].1 as nat));
    }
    assert forall|y: (Seq<char>, nat)| v2.to_set().contains(y) implies v1.to_set().contains(y) by {
        let i = choose|i: int| 0 <= i < v2.len() && v2[i] == y;
        assert(v2[i] == (r2[i].0@, r2[i].1 as nat));
        assert(m.contains_key(r2[i].0@));
        let j = choose|j: int| 0 <= j < r1.len() && (#[trigger] r1[j]).0@ == r2[i].0@;
        assert(v1[j] == (r1[j].0@, r1[j].1 as nat));
    }
    assert(v1.to_set() =~= v2.to_set());
    lemma_ranked_unique(v1, v2);
}

} // verus!
