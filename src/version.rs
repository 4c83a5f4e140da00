//! Semantic versions read from free-form tags.
use vstd::prelude::*;
use vstd::string::*;

verus! {

/// A semantic version as the ranking reads it: the three release numbers and
/// the pre-release text (empty for a release). Build metadata has no part in
/// precedence and is not kept.
pub struct SemVer {
    pub major: u64,
    pub minor: u64,
    pub patch: u64,
    pub pre: String,
}

impl View for SemVer {
    type V = (u64, u64, u64, Seq<char>);

    open spec fn view(&self) -> Self::V {
        (self.major, self.minor, self.patch, self.pre@)
    }
}

/// A tag together with the version that it was read as.
pub struct ParsedVersion {
    pub tag: String,
    pub version: SemVer,
}

impl View for ParsedVersion {
    type V = (Seq<char>, (u64, u64, u64, Seq<char>));

    open spec fn view(&self) -> Self::V {
        (self.tag@, self.version@)
    }
}

/// The models of a sequence of entries.
pub open spec fn models(s: Seq<ParsedVersion>) -> Seq<(Seq<char>, (u64, u64, u64, Seq<char>))> {
    s.map_values(|p: ParsedVersion| p@)
}

/// The texts of a sequence of strings.
pub open spec fn texts(s: Seq<String>) -> Seq<Seq<char>> {
    s.map_values(|t: String| t@)
}

/// What semver's parser makes of a text: the release numbers and the
/// pre-release text of the version, or nothing where the text is no version.
pub uninterp spec fn semver_parse(text: Seq<char>) -> Option<(u64, u64, u64, Seq<char>)>;

/// The model of an optional version.
pub open spec fn semver_opt_view(v: Option<SemVer>) -> Option<(u64, u64, u64, Seq<char>)> {
    match v {
        Some(v) => Some(v@),
        None => None,
    }
}

/// Relies on semver::Version::parse, whose result depends on the text alone;
/// a version's `major`, `minor`, `patch` and `pre.as_str()` are kept.
#[verifier::external_body]
fn parse_semver(text: &str) -> (r: Option<SemVer>)
    ensures
        semver_opt_view(r) == semver_parse(text@),
{
    match semver::Version::parse(text) {
        Ok(v) => Some(SemVer { major: v.major, minor: v.minor, patch: v.patch, pre: v.pre.as_str().to_string() }),
        Err(_) => None,
    }
}

/// A tag without its leading `v`, if it has one; only one is removed.
pub open spec fn strip_v_spec(tag: Seq<char>) -> Seq<char> {
    if tag.len() > 0 && tag[0] == 'v' {
        tag.drop_first()
    } else {
        tag
    }
}

/// Removes one leading `v` from a tag, if there is one.
pub fn strip_v(tag: &str) -> (r: &str)
    ensures
        r@ == strip_v_spec(tag@),
{
    let n = tag.unicode_len();
    if n > 0 && tag.get_char(0) == 'v' {
        let r = tag.substring_char(1, n);
        assert(r@ =~= tag@.drop_first());
        r
    } else {
        tag
    }
}

/// The entry that a tag gives, if its text after an optional leading `v` is a
/// semantic version.
pub open spec fn extract_one(tag: Seq<char>) -> Option<(Seq<char>, (u64, u64, u64, Seq<char>))> {
    match semver_parse(strip_v_spec(tag)) {
        Some(v) => Some((tag, v)),
        None => None,
    }
}

/// The entries of a list of tags, in the order of the tags; tags that are no
/// version are left out.
pub open spec fn extract_all(tags: Seq<Seq<char>>) -> Seq<(Seq<char>, (u64, u64, u64, Seq<char>))>
    decreases tags.len(),
{
    if tags.len() == 0 {
        Seq::empty()
    } else {
        let rest = extract_all(tags.drop_last());
        match extract_one(tags.last()) {
            Some(p) => rest.push(p),
            None => rest,
        }
    }
}

/// The model of an optional entry.
pub open spec fn parsed_opt_view(p: Option<ParsedVersion>) -> Option<(Seq<char>, (u64, u64, u64, Seq<char>))> {
    match p {
        Some(p) => Some(p@),
        None => None,
    }
}

/// Reads one tag as a version, after removing an optional leading `v`.
pub fn tag_to_version(tag: String) -> (r: Option<ParsedVersion>)
    ensures
        parsed_opt_view(r) == extract_one(tag@),
{
    let parsed = parse_semver(strip_v(tag.as_str()));
    match parsed {
        Some(version) => Some(ParsedVersion { tag, version }),
        None => None,
    }
}

/// Reads each tag as a version; tags that are no version are dropped.
pub fn tags_to_versions(tags: Vec<String>) -> (r: Vec<ParsedVersion>)
    ensures
        models(r@) == extract_all(texts(tags@)),
{
    let mut out: Vec<ParsedVersion> = Vec::new();
    let mut i: usize = 0;
    while i < tags.len()
        invariant
            i <= tags.len(),
            models(out@) == extract_all(texts(tags@).subrange(0, i as int)),
        decreases tags.len() - i,
    {
        let tag = tags[i].clone();
        let parsed = tag_to_version(tag);
        proof {
            let t = texts(tags@).subrange(0, i as int + 1);
            assert(t.drop_last() =~= texts(tags@).subrange(0, i as int));
            assert(t.last() == tags@[i as int]@);
        }
        match parsed {
            Some(p) => {
                let ghost before = out@;
                out.push(p);
                assert(models(out@) =~= models(before).push(p@));
            },
            None => {},
        }
        i = i + 1;
    }
    assert(texts(tags@).subrange(0, tags@.len() as int) =~= texts(tags@));
    out
}

/// Putting the `v` back in front of a version tag's stripped text gives the
/// tag byte for byte, and the entry read from it keeps the tag itself.
pub proof fn lemma_strip_v_round_trip(tag: Seq<char>)
    requires
        tag.len() > 0,
        tag[0] == 'v',
        semver_parse(strip_v_spec(tag)) is Some,
    ensures
        seq!['v'] + strip_v_spec(tag) == tag,
        extract_one(tag) == Some((tag, semver_parse(strip_v_spec(tag))->0)),
{
    assert(seq!['v'] + strip_v_spec(tag) =~= tag);
}

/// An entry is read from a list of tags exactly when its tag is in the list
/// and the tag reads as that entry.
pub proof fn lemma_extract_members(tags: Seq<Seq<char>>)
    ensures
        forall|p: (Seq<char>, (u64, u64, u64, Seq<char>))|
            #[trigger] extract_all(tags).contains(p) <==> tags.contains(p.0) && extract_one(p.0) == Some(p),
    decreases tags.len(),
{
    if tags.len() > 0 {
        let init = tags.drop_last();
        lemma_extract_members(init);
        assert forall|p: (Seq<char>, (u64, u64, u64, Seq<char>))|
            #[trigger] extract_all(tags).contains(p) <==> tags.contains(p.0) && extract_one(p.0) == Some(p) by {
            let ei = extract_all(init);
            let et = extract_all(tags);
            assert(init =~= tags.drop_last());
            match extract_one(tags.last()) {
                Some(q) => {
                    assert(et == ei.push(q));
                    assert(q.0 == tags.last());
                },
                None => {
                    assert(et == ei);
                },
            }
            assert forall|k: int| 0 <= k < ei.len() implies et[k] == ei[k] by {}
            if tags.contains(p.0) && extract_one(p.0) == Some(p) {
                let i = choose|i: int| 0 <= i < tags.len() && tags[i] == p.0;
                if i < tags.len() - 1 {
                    assert(init[i] == p.0);
                    assert(init.contains(p.0));
                    assert(ei.contains(p));
                    let k = choose|k: int| 0 <= k < ei.len() && ei[k] == p;
                    assert(et[k] == p);
                } else {
                    assert(et == ei.push(p));
                    assert(et[ei.len() as int] == p);
                }
            }
            if et.contains(p) {
                let j = choose|j: int| 0 <= j < et.len() && et[j] == p;
                if j < ei.len() {
                    assert(ei[j] == p);
                    assert(ei.contains(p));
                    let i = choose|i: int| 0 <= i < init.len() && init[i] == p.0;
                    assert(tags[i] == p.0);
                } else {
                    assert(tags[tags.len() - 1] == p.0);
                }
            }
        }
    }
}

/// Reading versions does not depend on the order of the tags: two lists that
/// hold the same tags as often give the same set of (tag, version) pairs.
pub proof fn lemma_extract_order_free(a: Seq<Seq<char>>, b: Seq<Seq<char>>)
    requires
        a.to_multiset() == b.to_multiset(),
    ensures
        extract_all(a).to_set() == extract_all(b).to_set(),
{
    broadcast use vstd::seq_lib::group_to_multiset_ensures;

    lemma_extract_members(a);
    lemma_extract_members(b);
    assert forall|t: Seq<char>| a.contains(t) <==> b.contains(t) by {
        assert(a.contains(t) <==> a.to_multiset().count(t) > 0);
        assert(b.contains(t) <==> b.to_multiset().count(t) > 0);
    }
    assert(extract_all(a).to_set() =~= extract_all(b).to_set());
}

} // verus!
