//! Platform identifiers: opaque target triples, their informal platform
//! tags, and the selection of a download link for a platform.
//!
//! The engine treats a target triple as an opaque byte string matched
//! only by equality.  Release discovery proper — scraping candidate
//! links out of a page — is the collaborator's business; what is decided
//! here, and specified exactly, is which candidate link serves a given
//! platform.

use vstd::prelude::*;
use crate::errors::Error;

verus! {

/// An opaque platform identifier, matched only by byte equality.
pub struct TargetTriple(pub Vec<u8>);

impl TargetTriple {
    /// Wrap a platform identifier.
    pub fn new(name: Vec<u8>) -> (r: TargetTriple)
        ensures
            r.0@ == name@,
    {
        TargetTriple(name)
    }
}

/// The bytes of `x86_64-unknown-linux-gnu`.
pub open spec fn linux_triple() -> Seq<u8> {
    seq![120u8, 56u8, 54u8, 95u8, 54u8, 52u8, 45u8, 117u8, 110u8, 107u8, 110u8, 111u8, 119u8, 110u8, 45u8, 108u8, 105u8, 110u8, 117u8, 120u8, 45u8, 103u8, 110u8, 117u8]
}

/// The bytes of `x86_64-unknown-linux-gnu`, as a vector.
pub fn linux_triple_vec() -> (r: Vec<u8>)
    ensures
        r@ == linux_triple(),
{
    let r: Vec<u8> = vec![120u8, 56u8, 54u8, 95u8, 54u8, 52u8, 45u8, 117u8, 110u8, 107u8, 110u8, 111u8, 119u8, 110u8, 45u8, 108u8, 105u8, 110u8, 117u8, 120u8, 45u8, 103u8, 110u8, 117u8];
    assert(r@ =~= linux_triple());
    r
}

/// The bytes of `x86_64-apple-darwin`.
pub open spec fn darwin_triple() -> Seq<u8> {
    seq![120u8, 56u8, 54u8, 95u8, 54u8, 52u8, 45u8, 97u8, 112u8, 112u8, 108u8, 101u8, 45u8, 100u8, 97u8, 114u8, 119u8, 105u8, 110u8]
}

/// The bytes of `x86_64-apple-darwin`, as a vector.
pub fn darwin_triple_vec() -> (r: Vec<u8>)
    ensures
        r@ == darwin_triple(),
{
    let r: Vec<u8> = vec![120u8, 56u8, 54u8, 95u8, 54u8, 52u8, 45u8, 97u8, 112u8, 112u8, 108u8, 101u8, 45u8, 100u8, 97u8, 114u8, 119u8, 105u8, 110u8];
    assert(r@ =~= darwin_triple());
    r
}

/// The bytes of `x86_64-pc-windows-msvc`.
pub open spec fn windows_triple() -> Seq<u8> {
    seq![120u8, 56u8, 54u8, 95u8, 54u8, 52u8, 45u8, 112u8, 99u8, 45u8, 119u8, 105u8, 110u8, 100u8, 111u8, 119u8, 115u8, 45u8, 109u8, 115u8, 118u8, 99u8]
}

/// The bytes of `x86_64-pc-windows-msvc`, as a vector.
pub fn windows_triple_vec() -> (r: Vec<u8>)
    ensures
        r@ == windows_triple(),
{
    let r: Vec<u8> = vec![120u8, 56u8, 54u8, 95u8, 54u8, 52u8, 45u8, 112u8, 99u8, 45u8, 119u8, 105u8, 110u8, 100u8, 111u8, 119u8, 115u8, 45u8, 109u8, 115u8, 118u8, 99u8];
    assert(r@ =~= windows_triple());
    r
}

/// The bytes of `linux`.
pub open spec fn linux_tag() -> Seq<u8> {
    seq![108u8, 105u8, 110u8, 117u8, 120u8]
}

/// The bytes of `linux`, as a vector.
pub fn linux_tag_vec() -> (r: Vec<u8>)
    ensures
        r@ == linux_tag(),
{
    let r: Vec<u8> = vec![108u8, 105u8, 110u8, 117u8, 120u8];
    assert(r@ =~= linux_tag());
    r
}

/// The bytes of `darwin`.
pub open spec fn darwin_tag() -> Seq<u8> {
    seq![100u8, 97u8, 114u8, 119u8, 105u8, 110u8]
}

/// The bytes of `darwin`, as a vector.
pub fn darwin_tag_vec() -> (r: Vec<u8>)
    ensures
        r@ == darwin_tag(),
{
    let r: Vec<u8> = vec![100u8, 97u8, 114u8, 119u8, 105u8, 110u8];
    assert(r@ =~= darwin_tag());
    r
}

/// The bytes of `windows`.
pub open spec fn windows_tag() -> Seq<u8> {
    seq![119u8, 105u8, 110u8, 100u8, 111u8, 119u8, 115u8]
}

/// The bytes of `windows`, as a vector.
pub fn windows_tag_vec() -> (r: Vec<u8>)
    ensures
        r@ == windows_tag(),
{
    let r: Vec<u8> = vec![119u8, 105u8, 110u8, 100u8, 111u8, 119u8, 115u8];
    assert(r@ =~= windows_tag());
    r
}

/// The bytes of `https://github.com/`.
pub open spec fn github_prefix() -> Seq<u8> {
    seq![104u8, 116u8, 116u8, 112u8, 115u8, 58u8, 47u8, 47u8, 103u8, 105u8, 116u8, 104u8, 117u8, 98u8, 46u8, 99u8, 111u8, 109u8, 47u8]
}

/// The bytes of `https://github.com/`, as a vector.
pub fn github_prefix_vec() -> (r: Vec<u8>)
    ensures
        r@ == github_prefix(),
{
    let r: Vec<u8> = vec![104u8, 116u8, 116u8, 112u8, 115u8, 58u8, 47u8, 47u8, 103u8, 105u8, 116u8, 104u8, 117u8, 98u8, 46u8, 99u8, 111u8, 109u8, 47u8];
    assert(r@ =~= github_prefix());
    r
}

/// The informal platform tag of a triple, if it has one.
pub open spec fn informal_of(t: Seq<u8>) -> Option<Seq<u8>> {
    if t == linux_triple() {
        Some(linux_tag())
    } else if t == darwin_triple() {
        Some(darwin_tag())
    } else if t == windows_triple() {
        Some(windows_tag())
    } else {
        None
    }
}

/// Compare two byte vectors.
pub fn bytes_eq(a: &Vec<u8>, b: &Vec<u8>) -> (r: bool)
    ensures
        r == (a@ == b@),
{
    if a.len() != b.len() {
        return false;
    }
    let n = a.len();
    let mut i: usize = 0;
    while i < n
        invariant
            0 <= i <= n,
            n == a@.len() == b@.len(),
            forall|t: int| #![trigger a@[t]] 0 <= t < i ==> a@[t] == b@[t],
        decreases n - i,
    {
        if a[i] != b[i] {
            return false;
        }
        i = i + 1;
    }
    assert(a@ =~= b@);
    true
}

impl TargetTriple {
    /// The informal tag the release page names this platform by.
    pub fn informal_target(&self) -> (r: Option<Vec<u8>>)
        ensures
            match r {
                Some(tag) => informal_of(self.0@) == Some(tag@),
                None => informal_of(self.0@) is None,
            },
    {
        if bytes_eq(&self.0, &linux_triple_vec()) {
            Some(linux_tag_vec())
        } else if bytes_eq(&self.0, &darwin_triple_vec()) {
            Some(darwin_tag_vec())
        } else if bytes_eq(&self.0, &windows_triple_vec()) {
            Some(windows_tag_vec())
        } else {
            None
        }
    }
}

/// `n` occurs as a contiguous run inside `h`.
pub open spec fn contains_sub(h: Seq<u8>, n: Seq<u8>) -> bool {
    exists|i: int| 0 <= i && i + n.len() <= h.len() && #[trigger] h.subrange(i, i + n.len()) == n
}

/// Decide whether `needle` occurs inside `hay`.
pub fn contains_bytes(hay: &Vec<u8>, needle: &Vec<u8>) -> (r: bool)
    ensures
        r == contains_sub(hay@, needle@),
{
    let hn = hay.len();
    let nn = needle.len();
    if nn > hn {
        return false;
    }
    if nn == 0 {
        proof {
            assert(exists|k: int|
                0 <= k && k + needle@.len() <= hay@.len() && #[trigger] hay@.subrange(
                    k,
                    k + needle@.len(),
                ) == needle@) by {
                assert(hay@.subrange(0, 0 + needle@.len() as int) =~= needle@);
            }
        }
        return true;
    }
    let mut i: usize = 0;
    while i <= hn - nn
        invariant
            1 <= nn <= hn,
            hn == hay@.len(),
            nn == needle@.len(),
            0 <= i <= hn - nn + 1,
            forall|t: int| #![trigger hay@.subrange(t, t + needle@.len())]
                0 <= t < i ==> hay@.subrange(t, t + needle@.len()) != needle@,
        decreases hn - nn - i + 1,
    {
        let mut j: usize = 0;
        let mut hit = true;
        while j < nn
            invariant
                0 <= j <= nn,
                i + nn <= hn,
                hn == hay@.len(),
                nn == needle@.len(),
                hit ==> forall|t: int| #![trigger needle@[t]]
                    0 <= t < j ==> hay@[i + t] == needle@[t],
                !hit ==> hay@.subrange(i as int, i + needle@.len()) != needle@,
            ensures
                hit ==> forall|t: int| #![trigger needle@[t]]
                    0 <= t < nn ==> hay@[i + t] == needle@[t],
                !hit ==> hay@.subrange(i as int, i + needle@.len()) != needle@,
            decreases nn - j,
        {
            if hay[i + j] != needle[j] {
                assert(hay@.subrange(i as int, i + needle@.len())[j as int] != needle@[j as int]);
                hit = false;
                break;
            }
            j = j + 1;
        }
        if hit {
            assert(hay@.subrange(i as int, i + needle@.len()) =~= needle@);
            return true;
        }
        i = i + 1;
    }
    assert(forall|t: int| #![trigger hay@.subrange(t, t + needle@.len())]
        0 <= t && t + needle@.len() <= hay@.len() ==> hay@.subrange(t, t + needle@.len()) != needle@);
    false
}

/// Pick the download link that serves the platform: the first candidate
/// containing the platform's informal tag.  A platform with no informal
/// tag, or no matching candidate, has no binary package.
pub fn choose_download_url(links: &Vec<Vec<u8>>, triple: &TargetTriple) -> (r: Result<
    Vec<u8>,
    Error,
>)
    ensures
        match r {
            Ok(u) => informal_of(triple.0@) is Some && exists|i: int|
                {
                    &&& 0 <= i < links@.len()
                    &&& #[trigger] contains_sub(links@[i]@, informal_of(triple.0@).unwrap())
                    &&& forall|j: int|
                        0 <= j < i ==> !contains_sub(links@[j]@, informal_of(triple.0@).unwrap())
                    &&& u@ == github_prefix() + links@[i]@
                },
            Err(e) => e == Error::NoBinaryForPlatform && (informal_of(triple.0@) is None
                || forall|i: int|
                    0 <= i < links@.len() ==> !contains_sub(
                        #[trigger] links@[i]@,
                        informal_of(triple.0@).unwrap(),
                    )),
        },
{
    let tag = match triple.informal_target() {
        Some(t) => t,
        None => {
            return Err(Error::NoBinaryForPlatform);
        },
    };
    let n = links.len();
    let mut i: usize = 0;
    while i < n
        invariant
            0 <= i <= n,
            n == links@.len(),
            informal_of(triple.0@) == Some(tag@),
            forall|j: int| 0 <= j < i ==> !contains_sub(#[trigger] links@[j]@, tag@),
        decreases n - i,
    {
        if contains_bytes(&links[i], &tag) {
            let mut url = github_prefix_vec();
            url.extend_from_slice(links[i].as_slice());
            assert(url@ =~= github_prefix() + links@[i as int]@);
            proof {
                let stag = informal_of(triple.0@).unwrap();
                assert(stag == tag@);
                assert(exists|k: int|
                    {
                        &&& 0 <= k < links@.len()
                        &&& #[trigger] contains_sub(links@[k]@, stag)
                        &&& forall|j: int| 0 <= j < k ==> !contains_sub(links@[j]@, stag)
                        &&& url@ == github_prefix() + links@[k]@
                    }) by {
                    assert(contains_sub(links@[i as int]@, stag));
                }
            }
            return Ok(url);
        }
        i = i + 1;
    }
    Err(Error::NoBinaryForPlatform)
}

/// The candidate release links on a download page: every non-overlapping
/// match of the pattern in the text, in order — or `None` when the
/// pattern does not compile.
pub uninterp spec fn release_links_res(pat: Seq<char>, text: Seq<u8>) -> Option<Seq<Seq<u8>>>;

/// Relies on regex::bytes::Regex: whether a pattern compiles, and the
/// non-overlapping matches `find_iter` then yields, are functions of
/// pattern and text alone.
#[verifier::external_body]
fn regex_find_all(pattern: &str, text: &Vec<u8>) -> (r: Option<Vec<Vec<u8>>>)
    ensures
        match r {
            Some(v) => release_links_res(pattern@, text@) matches Some(ms) && v@.len() == ms.len()
                && forall|i: int| #![trigger v@[i]] 0 <= i < v@.len() ==> v@[i]@ == ms[i],
            None => release_links_res(pattern@, text@) is None,
        },
{
    match regex::bytes::Regex::new(pattern) {
        Ok(re) => Some(re.find_iter(text.as_slice()).map(|m| m.as_bytes().to_vec()).collect()),
        Err(_) => None,
    }
}

/// The pattern that recognizes release download links.
pub open spec fn release_link_pattern() -> Seq<char> {
    "/leanprover/[a-z-]+/releases/download/[^\"]+"@
}

/// Find the download link for a platform on a release page: scrape the
/// candidate links, then pick the first that serves the platform.
pub fn discover_download_url(html: &Vec<u8>, triple: &TargetTriple) -> (r: Result<Vec<u8>, Error>)
    ensures
        match r {
            Ok(u) => release_links_res(release_link_pattern(), html@) is Some
                && informal_of(triple.0@) is Some && exists|i: int|
                {
                    &&& 0 <= i < release_links_res(release_link_pattern(), html@).unwrap().len()
                    &&& #[trigger] contains_sub(
                        release_links_res(release_link_pattern(), html@).unwrap()[i],
                        informal_of(triple.0@).unwrap(),
                    )
                    &&& forall|j: int|
                        0 <= j < i ==> !contains_sub(
                            release_links_res(release_link_pattern(), html@).unwrap()[j],
                            informal_of(triple.0@).unwrap(),
                        )
                    &&& u@ == github_prefix()
                        + release_links_res(release_link_pattern(), html@).unwrap()[i]
                },
            Err(e) => e == Error::NoBinaryForPlatform && {
                ||| release_links_res(release_link_pattern(), html@) is None
                ||| informal_of(triple.0@) is None
                ||| forall|i: int|
                    0 <= i < release_links_res(release_link_pattern(), html@).unwrap().len()
                        ==> !contains_sub(
                        #[trigger] release_links_res(release_link_pattern(), html@).unwrap()[i],
                        informal_of(triple.0@).unwrap(),
                    )
            },
        },
{
    let links = match regex_find_all("/leanprover/[a-z-]+/releases/download/[^\"]+", html) {
        Some(v) => v,
        None => {
            return Err(Error::NoBinaryForPlatform);
        },
    };
    let r = choose_download_url(&links, triple);
    match &r {
        Ok(u) => {
            proof {
                let ms = release_links_res(release_link_pattern(), html@).unwrap();
                assert(links@.len() == ms.len());
                let tag = informal_of(triple.0@).unwrap();
                let i = choose|i: int|
                    {
                        &&& 0 <= i < links@.len()
                        &&& #[trigger] contains_sub(links@[i]@, tag)
                        &&& forall|j: int| 0 <= j < i ==> !contains_sub(links@[j]@, tag)
                        &&& u@ == github_prefix() + links@[i]@
                    };
                assert(links@[i]@ == ms[i]);
                assert(forall|j: int| 0 <= j < i ==> links@[j]@ == ms[j]);
                assert(contains_sub(ms[i], tag));
                assert(forall|j: int| 0 <= j < i ==> !contains_sub(ms[j], tag));
                assert(exists|k: int|
                    {
                        &&& 0 <= k < ms.len()
                        &&& #[trigger] contains_sub(ms[k], tag)
                        &&& forall|j: int| 0 <= j < k ==> !contains_sub(ms[j], tag)
                        &&& u@ == github_prefix() + ms[k]
                    }) by {
                    assert(contains_sub(ms[i], tag));
                }
            }
        },
        Err(_) => {
            proof {
                let ms = release_links_res(release_link_pattern(), html@).unwrap();
                assert(links@.len() == ms.len());
                if informal_of(triple.0@) is Some {
                    let tag = informal_of(triple.0@).unwrap();
                    assert(forall|i: int|
                        0 <= i < ms.len() ==> !contains_sub(#[trigger] ms[i], tag)) by {
                        assert(forall|i: int| #![trigger ms[i]]
                            0 <= i < ms.len() ==> ms[i] == links@[i]@);
                    }
                }
            }
        },
    }
    r
}

} // verus!
