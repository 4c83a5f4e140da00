//! Ranking parsed versions by precedence.
use vstd::prelude::*;
use crate::precedence::{lemma_lex_asymmetric, lemma_lex_below, prec_lt, precedence_key, precedes};
use crate::version::{extract_all, models, tags_to_versions, texts, ParsedVersion, SemVer};

verus! {

broadcast use {vstd::seq_lib::group_to_multiset_ensures, vstd::multiset::group_multiset_axioms};

/// The model of a version: release numbers and pre-release text.
pub type VersionModel = (u64, u64, u64, Seq<char>);

/// The model of an entry: its tag and its version.
pub type EntryModel = (Seq<char>, VersionModel);

/// The entries that take part in a ranking, in their order: all of them, or
/// only those without a pre-release part.
pub open spec fn eligible(vs: Seq<EntryModel>, include_pre: bool) -> Seq<EntryModel>
    decreases vs.len(),
{
    if vs.len() == 0 {
        Seq::empty()
    } else {
        let rest = eligible(vs.drop_last(), include_pre);
        if include_pre || vs.last().1.3.len() == 0 {
            rest.push(vs.last())
        } else {
            rest
        }
    }
}

/// No entry has lower precedence than one after it.
pub open spec fn sorted_desc(s: Seq<EntryModel>) -> bool {
    forall|i: int, j: int| 0 <= i < j < s.len() ==> !prec_lt(#[trigger] s[i].1, #[trigger] s[j].1)
}

/// `r` ranks the eligible entries of `vs` and keeps the first `n`: it has
/// `min(n, eligible count)` entries, taken from the eligible ones, in
/// descending precedence, and no entry left out outranks one kept.
pub open spec fn is_ranking(r: Seq<EntryModel>, vs: Seq<EntryModel>, include_pre: bool, n: nat) -> bool {
    let e = eligible(vs, include_pre);
    &&& r.len() == if n < e.len() { n } else { e.len() }
    &&& sorted_desc(r)
    &&& r.to_multiset().subset_of(e.to_multiset())
    &&& forall|x: EntryModel|
        #[trigger] e.to_multiset().count(x) > r.to_multiset().count(x) ==> forall|i: int|
            0 <= i < r.len() ==> !prec_lt(r[i].1, x.1)
}

/// Where `x` goes into a descending list: after every entry that it does not
/// outrank and before every entry that does not outrank it.
fn insertion_point(out: &Vec<ParsedVersion>, v: &SemVer) -> (pos: usize)
    requires
        sorted_desc(models(out@)),
    ensures
        pos <= out@.len(),
        forall|j: int| 0 <= j < pos ==> !prec_lt(out@[j].version@, v@),
        forall|j: int| pos <= j < out@.len() ==> !prec_lt(v@, out@[j].version@),
{
    let mut pos: usize = 0;
    let mut found = false;
    while !found && pos < out.len()
        invariant
            pos <= out@.len(),
            forall|j: int| 0 <= j < pos ==> !prec_lt(out@[j].version@, v@),
            found ==> pos < out@.len() && prec_lt(out@[pos as int].version@, v@),
        decreases out@.len() - pos + if found { 0int } else { 1int },
    {
        if precedes(&out[pos].version, v) {
            found = true;
        } else {
            pos = pos + 1;
        }
    }
    proof {
        let s = models(out@);
        assert forall|j: int| pos <= j < out@.len() implies !prec_lt(v@, out@[j].version@) by {
            assert(s[pos as int].1 == out@[pos as int].version@);
            assert(s[j].1 == out@[j].version@);
            if j == pos {
                lemma_lex_asymmetric(precedence_key(v@), precedence_key(out@[j].version@));
            } else {
                lemma_lex_below(
                    precedence_key(out@[pos as int].version@),
                    precedence_key(out@[j].version@),
                    precedence_key(v@),
                );
            }
        }
    }
    pos
}

proof fn lemma_insert_sorted(s: Seq<EntryModel>, pos: int, x: EntryModel)
    requires
        sorted_desc(s),
        0 <= pos <= s.len(),
        forall|j: int| 0 <= j < pos ==> !prec_lt(s[j].1, x.1),
        forall|j: int| pos <= j < s.len() ==> !prec_lt(x.1, s[j].1),
    ensures
        sorted_desc(s.insert(pos, x)),
{
    let t = s.insert(pos, x);
    assert forall|i: int, j: int| 0 <= i < j < t.len() implies !prec_lt(#[trigger] t[i].1, #[trigger] t[j].1) by {
        if i < pos {
            if j > pos {
                assert(t[j] == s[j - 1]);
            }
        } else if i > pos {
            assert(t[i] == s[i - 1]);
            assert(t[j] == s[j - 1]);
        } else {
            assert(t[j] == s[j - 1]);
        }
    }
}

proof fn lemma_insert_multiset(s: Seq<EntryModel>, pos: int, x: EntryModel)
    requires
        0 <= pos <= s.len(),
    ensures
        s.insert(pos, x).to_multiset() =~= s.to_multiset().insert(x),
{
    let t = s.insert(pos, x);
    assert(t.remove(pos) =~= s);
    assert(t[pos] == x);
    assert(t.contains(x));
}

proof fn lemma_prefix_ranking(s: Seq<EntryModel>, e: Seq<EntryModel>, m: int)
    requires
        sorted_desc(s),
        s.to_multiset() == e.to_multiset(),
        0 <= m <= s.len(),
    ensures
        sorted_desc(s.subrange(0, m)),
        s.subrange(0, m).to_multiset().subset_of(e.to_multiset()),
        forall|x: EntryModel|
            #[trigger] e.to_multiset().count(x) > s.subrange(0, m).to_multiset().count(x) ==> forall|i: int|
                0 <= i < m ==> !prec_lt(s.subrange(0, m)[i].1, x.1),
{
    let p = s.subrange(0, m);
    let q = s.subrange(m, s.len() as int);
    assert(s =~= p + q);
    vstd::seq_lib::lemma_multiset_commutative(p, q);
    assert forall|i: int, j: int| 0 <= i < j < p.len() implies !prec_lt(#[trigger] p[i].1, #[trigger] p[j].1) by {
        assert(p[i] == s[i] && p[j] == s[j]);
    }
    assert forall|x: EntryModel|
        #[trigger] e.to_multiset().count(x) > p.to_multiset().count(x) implies forall|i: int|
            0 <= i < m ==> !prec_lt(p[i].1, x.1) by {
        assert(q.to_multiset().count(x) > 0);
        assert(q.contains(x));
        let k = choose|k: int| 0 <= k < q.len() && q[k] == x;
        assert(s[m + k] == x);
        assert forall|i: int| 0 <= i < m implies !prec_lt(p[i].1, x.1) by {
            assert(p[i] == s[i]);
        }
    }
}

/// Ranks parsed versions: drops pre-releases unless `include_pre`, orders the
/// rest by descending precedence (entries of equal precedence keep their
/// order) and keeps the first `n`.
pub fn rank(versions: Vec<ParsedVersion>, include_pre: bool, n: usize) -> (r: Vec<ParsedVersion>)
    ensures
        is_ranking(models(r@), models(versions@), include_pre, n as nat),
{
    let ghost all = models(versions@);
    let mut rest = versions;
    let mut out: Vec<ParsedVersion> = Vec::new();
    let ghost mut k: int = 0;
    assert(all.subrange(0, all.len() as int) =~= all);
    assert(all.subrange(0, 0) =~= Seq::<EntryModel>::empty());
    assert(models(out@) =~= Seq::<EntryModel>::empty());
    while rest.len() > 0
        invariant
            0 <= k <= all.len(),
            models(rest@) == all.subrange(k, all.len() as int),
            sorted_desc(models(out@)),
            models(out@).to_multiset() == eligible(all.subrange(0, k), include_pre).to_multiset(),
        decreases rest@.len(),
    {
        let ghost rest_before = rest@;
        let x = rest.remove(0);
        proof {
            assert(models(rest_before).len() == rest_before.len());
            assert(models(rest_before)[0] == x@);
            assert forall|j: int| 0 <= j < rest@.len() implies models(rest@)[j] == all[k + 1 + j] by {
                assert(rest@[j] == rest_before[j + 1]);
                assert(models(rest_before)[j + 1] == all.subrange(k, all.len() as int)[j + 1]);
            }
            assert(models(rest@) =~= all.subrange(k + 1, all.len() as int));
            let t = all.subrange(0, k + 1);
            assert(t.drop_last() =~= all.subrange(0, k));
            assert(t.last() == x@);
        }
        if include_pre || x.version.pre.as_str().is_empty() {
            let pos = insertion_point(&out, &x.version);
            let ghost before = out@;
            out.insert(pos, x);
            proof {
                assert(models(out@) =~= models(before).insert(pos as int, x@));
                assert forall|j: int| 0 <= j < pos implies !prec_lt(models(before)[j].1, x@.1) by {
                    assert(models(before)[j].1 == before[j].version@);
                }
                assert forall|j: int| pos <= j < before.len() implies !prec_lt(x@.1, models(before)[j].1) by {
                    assert(models(before)[j].1 == before[j].version@);
                }
                lemma_insert_sorted(models(before), pos as int, x@);
                lemma_insert_multiset(models(before), pos as int, x@);
            }
        }
        proof {
            k = k + 1;
        }
    }
    let ghost s = models(out@);
    let ghost e = eligible(all, include_pre);
    assert(all.subrange(0, k) =~= all);
    assert(s.len() == e.len()) by {
        assert(s.to_multiset().len() == e.to_multiset().len());
    }
    let m: usize = if n < out.len() { n } else { out.len() };
    out.truncate(m);
    proof {
        lemma_prefix_ranking(s, e, m as int);
        assert(models(out@) =~= s.subrange(0, m as int));
    }
    out
}

/// The tags of a list of entries, in its order.
pub fn tags_of(ranked: &Vec<ParsedVersion>) -> (r: Vec<String>)
    ensures
        texts(r@) == models(ranked@).map_values(|p: EntryModel| p.0),
{
    let mut out: Vec<String> = Vec::new();
    let mut i: usize = 0;
    while i < ranked.len()
        invariant
            i <= ranked@.len(),
            texts(out@) == models(ranked@).subrange(0, i as int).map_values(|p: EntryModel| p.0),
        decreases ranked@.len() - i,
    {
        let ghost before = out@;
        let tag = ranked[i].tag.clone();
        out.push(tag);
        assert(texts(out@) =~= texts(before).push(ranked@[i as int].tag@));
        assert(models(ranked@)[i as int].0 == ranked@[i as int].tag@);
        assert(texts(out@) =~= models(ranked@).subrange(0, i as int + 1).map_values(|p: EntryModel| p.0));
        i = i + 1;
    }
    assert(models(ranked@).subrange(0, i as int) =~= models(ranked@));
    out
}

/// How a ranking is made: how many versions to report, and whether
/// pre-releases take part.
pub struct RankConfig {
    pub count: usize,
    pub include_prerelease: bool,
}

impl Default for RankConfig {
    /// Three versions, releases only.
    fn default() -> (r: RankConfig)
        ensures
            r.count == 3,
            !r.include_prerelease,
    {
        RankConfig { count: 3, include_prerelease: false }
    }
}

/// From raw tags to the tags of the newest versions: reads each tag as a
/// version, ranks the versions as `config` says and returns their tags.
pub fn latest_tags(tags: Vec<String>, config: &RankConfig) -> (r: Vec<String>)
    ensures
        exists|ranked: Seq<EntryModel>|
            is_ranking(ranked, extract_all(texts(tags@)), config.include_prerelease, config.count as nat)
                && texts(r@) == ranked.map_values(|p: EntryModel| p.0),
{
    let versions = tags_to_versions(tags);
    let ranked = rank(versions, config.include_prerelease, config.count);
    let r = tags_of(&ranked);
    assert(is_ranking(models(ranked@), extract_all(texts(tags@)), config.include_prerelease, config.count as nat));
    r
}

} // verus!
