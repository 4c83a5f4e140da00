//! Image references and the registry endpoints built from them.
use vstd::prelude::*;
use vstd::string::*;

verus! {

/// Whether the reference names a namespace, that is holds a `/`.
pub open spec fn has_slash(s: Seq<char>) -> bool {
    exists|i: int| 0 <= i < s.len() && s[i] == '/'
}

/// Whether `s` holds exactly one `/`.
pub open spec fn one_slash(s: Seq<char>) -> bool {
    exists|i: int|
        0 <= i < s.len() && s[i] == '/' && forall|j: int| 0 <= j < s.len() && j != i ==> s[j] != '/'
}

/// The namespace that the registry gives unqualified images, with its `/`.
pub open spec fn default_prefix() -> Seq<char> {
    seq!['l', 'i', 'b', 'r', 'a', 'r', 'y', '/']
}

/// The canonical `namespace/repository` form of an image reference.
pub open spec fn normalized(image: Seq<char>) -> Seq<char> {
    if has_slash(image) {
        image
    } else {
        default_prefix() + image
    }
}

/// Whether `image` holds a `/`.
pub fn contains_slash(image: &str) -> (r: bool)
    ensures
        r == has_slash(image@),
{
    let n = image.unicode_len();
    let mut i: usize = 0;
    while i < n
        invariant
            n == image@.len(),
            i <= n,
            forall|j: int| 0 <= j < i ==> image@[j] != '/',
        decreases n - i,
    {
        if image.get_char(i) == '/' {
            return true;
        }
        i = i + 1;
    }
    false
}

/// Turns an image reference into the `namespace/repository` form: a reference
/// that holds a `/` is kept, a bare name gets the default namespace.
pub fn prepare_image(image: &str) -> (r: String)
    ensures
        r@ == normalized(image@),
{
    if contains_slash(image) {
        String::from_str(image)
    } else {
        let prefix = String::from_str("library/");
        proof {
            reveal_strlit("library/");
        }
        assert(prefix@ =~= default_prefix());
        prefix.concat(image)
    }
}

/// A normalised reference is the input where it held a `/`; otherwise it is
/// the default namespace, a `/` and the input, and holds exactly one `/`.
pub proof fn lemma_normalized(image: Seq<char>)
    ensures
        has_slash(image) ==> normalized(image) == image,
        !has_slash(image) ==> normalized(image) == default_prefix() + image,
        !has_slash(image) ==> one_slash(normalized(image)),
        has_slash(normalized(image)),
{
    let r = normalized(image);
    if !has_slash(image) {
        assert(r[7] == '/');
        assert forall|j: int| 0 <= j < r.len() && j != 7 implies r[j] != '/' by {
            if j >= 8 {
                assert(r[j] == image[j - 8]);
            }
        }
        assert(has_slash(r));
    }
}

/// The token service's address for an anonymous pull of `image`.
pub open spec fn token_url_of(image: Seq<char>) -> Seq<char> {
    "https://auth.docker.io/token?service=registry.docker.io&scope=repository:"@ + image
        + ":pull"@
}

/// The tag list's address for `image`.
pub open spec fn tags_url_of(image: Seq<char>) -> Seq<char> {
    "https://registry-1.docker.io/v2/"@ + image + "/tags/list"@
}

/// The address at which a pull-scoped token for `image` is issued.
pub fn token_url(image: &str) -> (r: String)
    ensures
        r@ == token_url_of(image@),
{
    let base = String::from_str(
        "https://auth.docker.io/token?service=registry.docker.io&scope=repository:",
    );
    base.concat(image).concat(":pull")
}

/// The address from which the tags of `image` are listed.
pub fn tags_url(image: &str) -> (r: String)
    ensures
        r@ == tags_url_of(image@),
{
    let base = String::from_str("https://registry-1.docker.io/v2/");
    base.concat(image).concat("/tags/list")
}

} // verus!
