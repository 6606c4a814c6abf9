//! Where a synchronisation target lives, read from its location string.
//!
//! A location is a URL, or a relative path when it parses as a URL without a
//! base. `file:` URLs and plain paths name a directory; `s3:` URLs name a
//! bucket and a prefix in it.

use vstd::prelude::*;
use vstd::string::StringSliceAdditionalSpecFns;
use crate::text::{append_bytes, byte_index, copy_range, is_utf8, lemma_byte_index_at, lemma_byte_index_bounds};

verus! {

#[verifier::external_type_specification]
#[verifier::external_body]
pub struct ExParseError(url::ParseError);

/// The parts of a URL that locating a target reads.
#[derive(Debug)]
pub struct UrlParts {
    pub scheme: Vec<u8>,
    pub host: Option<Vec<u8>>,
    pub path: Vec<u8>,
}

/// What parsing a location as a URL gives.
#[derive(Debug)]
pub enum ParsedUrl {
    /// An absolute URL.
    Url(UrlParts),
    /// Text that is a relative URL: it has no scheme.
    RelativeWithoutBase,
    /// Any other parse error.
    Invalid(url::ParseError),
}

/// The abstract value of a parsed location.
pub enum UrlView {
    Url { scheme: Seq<u8>, host: Option<Seq<u8>>, path: Seq<u8> },
    RelativeWithoutBase,
    Invalid,
}

pub open spec fn bytes_option_view(o: Option<Vec<u8>>) -> Option<Seq<u8>> {
    match o {
        Some(b) => Some(b@),
        None => None,
    }
}

impl View for ParsedUrl {
    type V = UrlView;

    open spec fn view(&self) -> UrlView {
        match self {
            ParsedUrl::Url(p) => UrlView::Url { scheme: p.scheme@, host: bytes_option_view(p.host), path: p.path@ },
            ParsedUrl::RelativeWithoutBase => UrlView::RelativeWithoutBase,
            ParsedUrl::Invalid(_) => UrlView::Invalid,
        }
    }
}

/// What `url::Url::parse` gives for the text `input`: the scheme, host and path
/// of the URL, or which error.
pub uninterp spec fn url_parse(input: Seq<char>) -> UrlView;

/// Parses `location` with `url::Url::parse`.
///
/// Trusted: the contract only names the result: it is a function of the text
/// alone (the parser reads nothing else). The scheme, host (`host_str`) and
/// path (`path`) of a URL are copied as bytes; `RelativeUrlWithoutBase` is told
/// apart from the other errors, which are kept as they are.
#[verifier::external_body]
fn parse_url(location: &str) -> (r: ParsedUrl)
    ensures
        r@ == url_parse(location@),
{
    match url::Url::parse(location) {
        Ok(u) => {
            let host = match u.host_str() {
                Some(h) => Some(h.as_bytes().to_vec()),
                None => None,
            };
            ParsedUrl::Url(UrlParts { scheme: u.scheme().as_bytes().to_vec(), host, path: u.path().as_bytes().to_vec() })
        },
        Err(url::ParseError::RelativeUrlWithoutBase) => ParsedUrl::RelativeWithoutBase,
        Err(e) => ParsedUrl::Invalid(e),
    }
}

/// Where a target lives.
#[derive(Debug)]
pub enum RemoteLocation {
    /// A directory on this machine.
    File { root: Vec<u8> },
    /// A bucket in S3, with the prefix under which the files are kept.
    S3 { bucket: Vec<u8>, prefix: Vec<u8> },
}

/// The abstract value of a location.
pub enum LocationView {
    File { root: Seq<u8> },
    S3 { bucket: Seq<u8>, prefix: Seq<u8> },
}

impl View for RemoteLocation {
    type V = LocationView;

    open spec fn view(&self) -> LocationView {
        match self {
            RemoteLocation::File { root } => LocationView::File { root: root@ },
            RemoteLocation::S3 { bucket, prefix } => LocationView::S3 { bucket: bucket@, prefix: prefix@ },
        }
    }
}

/// Why a location names no target.
#[derive(Debug)]
pub enum RemoteError {
    /// The location is not a valid URL.
    InvalidUrl(url::ParseError),
    /// The URL's scheme is neither `file` nor `s3`.
    UnsupportedScheme(Vec<u8>),
    /// An `s3:` URL without a bucket.
    MissingBucket,
}

/// The abstract value of a location error.
pub enum RemoteErrorView {
    InvalidUrl,
    UnsupportedScheme(Seq<u8>),
    MissingBucket,
}

pub open spec fn remote_error_view(e: RemoteError) -> RemoteErrorView {
    match e {
        RemoteError::InvalidUrl(_) => RemoteErrorView::InvalidUrl,
        RemoteError::UnsupportedScheme(s) => RemoteErrorView::UnsupportedScheme(s@),
        RemoteError::MissingBucket => RemoteErrorView::MissingBucket,
    }
}

pub open spec fn location_result_view(r: Result<RemoteLocation, RemoteError>) -> Result<LocationView, RemoteErrorView> {
    match r {
        Ok(l) => Ok(l@),
        Err(e) => Err(remote_error_view(e)),
    }
}

/// The scheme `file`.
pub open spec fn file_scheme() -> Seq<u8> {
    seq![102u8, 105u8, 108u8, 101u8]
}

/// The scheme `s3`.
pub open spec fn s3_scheme() -> Seq<u8> {
    seq![115u8, 51u8]
}

/// A segment that a path drops where it is not the first: empty, or `.`.
pub open spec fn is_empty_segment(seg: Seq<u8>) -> bool {
    seg.len() == 0 || seg == seq![46u8]
}

/// `p` without its leading empty and `.` segments, each with the `/` after it.
pub open spec fn trim_leading(p: Seq<u8>) -> Seq<u8>
    decreases p.len(),
{
    if p.len() == 0 {
        p
    } else {
        let i = byte_index(p, 47u8);
        proof {
            lemma_byte_index_bounds(p, 47u8);
        }
        if is_empty_segment(p.take(i)) {
            if i < p.len() {
                trim_leading(p.skip(i + 1))
            } else {
                seq![]
            }
        } else {
            p
        }
    }
}

/// The position of the last `c` in `b`; -1 where there is none.
pub open spec fn last_byte_index(b: Seq<u8>, c: u8) -> int
    decreases b.len(),
{
    if b.len() == 0 {
        -1
    } else if b.last() == c {
        b.len() - 1
    } else {
        last_byte_index(b.drop_last(), c)
    }
}

/// `p` without its trailing empty and `.` segments, each with the `/` before it.
pub open spec fn trim_trailing(p: Seq<u8>) -> Seq<u8>
    decreases p.len(),
{
    if p.len() == 0 {
        p
    } else {
        let j = last_byte_index(p, 47u8);
        proof {
            lemma_last_byte_index_bounds(p, 47u8);
        }
        if is_empty_segment(p.skip(j + 1)) {
            if j >= 0 {
                trim_trailing(p.take(j))
            } else {
                seq![]
            }
        } else {
            p
        }
    }
}

/// The prefix of an `s3:` URL's path: the path below the root, as
/// `Path::strip_prefix("/")` gives it, without leading and trailing empty and
/// `.` segments. `None` where the path does not start at the root.
pub open spec fn s3_prefix_spec(path: Seq<u8>) -> Option<Seq<u8>> {
    if path.len() > 0 && path[0] == 47u8 {
        Some(trim_trailing(trim_leading(path.skip(1))))
    } else {
        None
    }
}

/// An `s3:` URL with a bucket names a prefix only where its path starts at the root.
pub open spec fn s3_path_rooted(parsed: UrlView) -> bool {
    match parsed {
        UrlView::Url { scheme, host, path } => scheme == s3_scheme() && host is Some ==> s3_prefix_spec(path) is Some,
        _ => true,
    }
}

/// The key of the file `name` under `prefix`, as `Path::join` joins them: an
/// absolute name stands alone; otherwise a `/` separates the two unless the
/// prefix is empty or already ends in one.
pub open spec fn s3_key_spec(prefix: Seq<u8>, name: Seq<u8>) -> Seq<u8> {
    if name.len() > 0 && name[0] == 47u8 {
        name
    } else if prefix.len() > 0 && prefix.last() != 47u8 {
        prefix + seq![47u8] + name
    } else {
        prefix + name
    }
}

pub proof fn lemma_last_byte_index_bounds(b: Seq<u8>, c: u8)
    ensures
        -1 <= last_byte_index(b, c) < b.len(),
    decreases b.len(),
{
    if b.len() > 0 && b.last() != c {
        lemma_last_byte_index_bounds(b.drop_last(), c);
    }
}

proof fn lemma_last_byte_index_at(b: Seq<u8>, c: u8, k: int)
    requires
        -1 <= k < b.len(),
        forall|j: int| k < j < b.len() ==> b[j] != c,
        k >= 0 ==> b[k] == c,
    ensures
        last_byte_index(b, c) == k,
    decreases b.len(),
{
    if b.len() > 0 && k < b.len() - 1 {
        lemma_last_byte_index_at(b.drop_last(), c, k);
    }
}

fn is_empty_segment_exec(p: &[u8], start: usize, end: usize) -> (r: bool)
    requires
        start <= end <= p@.len(),
    ensures
        r == is_empty_segment(p@.subrange(start as int, end as int)),
{
    let ghost seg = p@.subrange(start as int, end as int);
    if start == end {
        return true;
    }
    let r = end - start == 1 && p[start] == 46u8;
    proof {
        if r {
            assert(seg =~= seq![46u8]);
        } else if seg == seq![46u8] {
            assert(seg.len() == 1);
            assert(seg[0] == p@[start as int]);
        }
    }
    r
}

/// The prefix of an `s3:` URL's path; `None` where the path does not start at the root.
pub fn s3_prefix(path: &[u8]) -> (r: Option<Vec<u8>>)
    ensures
        bytes_option_view(r) == s3_prefix_spec(path@),
{
    let n = path.len();
    if n == 0 || path[0] != 47u8 {
        return None;
    }
    let ghost body = path@.skip(1);
    let mut start: usize = 1;
    let mut stop = false;
    proof {
        assert(path@.skip(1) == body);
    }
    while start < n && !stop
        invariant
            1 <= start <= n == path@.len(),
            body == path@.skip(1),
            trim_leading(path@.skip(start as int)) == trim_leading(body),
            stop ==> trim_leading(path@.skip(start as int)) == path@.skip(start as int),
        decreases n - start + if stop { 0int } else { 1int },
    {
        let mut j: usize = start;
        while j < n && path[j] != 47u8
            invariant
                start <= j <= n == path@.len(),
                forall|k: int| start <= k < j ==> path@[k] != 47u8,
            decreases n - j,
        {
            j = j + 1;
        }
        let ghost rest = path@.skip(start as int);
        proof {
            lemma_byte_index_at(rest, 47u8, j - start);
            assert(rest.take(j - start) =~= path@.subrange(start as int, j as int));
        }
        if !is_empty_segment_exec(path, start, j) {
            proof {
                assert(trim_leading(rest) == rest);
            }
            stop = true;
        } else if j < n {
            assert(rest.skip(j - start + 1) =~= path@.skip(j + 1));
            start = j + 1;
        } else {
            assert(path@.skip(n as int) =~= Seq::<u8>::empty());
            start = n;
        }
    }
    let ghost lead = trim_leading(body);
    proof {
        if start == n {
            assert(path@.skip(start as int) =~= Seq::<u8>::empty());
        }
        assert(lead == path@.skip(start as int));
    }
    let mut end: usize = n;
    proof {
        assert(path@.subrange(start as int, end as int) == lead);
    }
    let mut stop_end = false;
    while end > start && !stop_end
        invariant
            start <= end <= n == path@.len(),
            lead == path@.skip(start as int),
            trim_trailing(path@.subrange(start as int, end as int)) == trim_trailing(lead),
            stop_end ==> trim_trailing(path@.subrange(start as int, end as int)) == path@.subrange(start as int, end as int),
        decreases end - start + if stop_end { 0int } else { 1int },
    {
        let ghost cur = path@.subrange(start as int, end as int);
        let mut k: usize = end;
        while k > start && path[k - 1] != 47u8
            invariant
                start <= k <= end <= n == path@.len(),
                forall|m: int| k <= m < end ==> path@[m] != 47u8,
            decreases k - start,
        {
            k = k - 1;
        }
        let ghost j: int = k - start - 1;
        proof {
            assert forall|m: int| j < m < cur.len() implies cur[m] != 47u8 by {
                assert(cur[m] == path@[start + m]);
            }
            if k > start {
                assert(cur[j] == path@[k - 1]);
            }
            lemma_last_byte_index_at(cur, 47u8, j);
            assert(cur.skip(j + 1) =~= path@.subrange(k as int, end as int));
        }
        if !is_empty_segment_exec(path, k, end) {
            proof {
                assert(trim_trailing(cur) == cur);
            }
            stop_end = true;
        } else if k > start {
            assert(cur.take(j) =~= path@.subrange(start as int, k - 1));
            end = k - 1;
        } else {
            assert(path@.subrange(start as int, start as int) =~= Seq::<u8>::empty());
            end = start;
        }
    }
    proof {
        if end == start {
            assert(path@.subrange(start as int, end as int) =~= Seq::<u8>::empty());
        }
    }
    Some(copy_range(path, start, end))
}

/// The key of the file `name` under `prefix`; `None` where it is not valid UTF-8.
pub fn s3_key(prefix: &[u8], name: &[u8]) -> (r: Option<Vec<u8>>)
    ensures
        bytes_option_view(r) == (if vstd::utf8::valid_utf8(s3_key_spec(prefix@, name@)) {
            Some(s3_key_spec(prefix@, name@))
        } else {
            None::<Seq<u8>>
        }),
{
    let mut key: Vec<u8> = Vec::new();
    if !(name.len() > 0 && name[0] == 47u8) {
        append_bytes(&mut key, prefix);
        if prefix.len() > 0 && prefix[prefix.len() - 1] != 47u8 {
            key.push(47u8);
        }
    }
    append_bytes(&mut key, name);
    proof {
        if !(name@.len() > 0 && name@[0] == 47u8) && prefix@.len() > 0 && prefix@.last() != 47u8 {
            assert(key@ =~= prefix@ + seq![47u8] + name@);
        } else if !(name@.len() > 0 && name@[0] == 47u8) {
            assert(key@ =~= prefix@ + name@);
        } else {
            assert(key@ =~= name@);
        }
    }
    if is_utf8(key.as_slice()) {
        Some(key)
    } else {
        None
    }
}

/// Where the location `text` (whose bytes are `bytes`) names, given what it parses to.
pub open spec fn location_spec(bytes: Seq<u8>, parsed: UrlView) -> Result<LocationView, RemoteErrorView> {
    match parsed {
        UrlView::RelativeWithoutBase => Ok(LocationView::File { root: bytes }),
        UrlView::Invalid => Err(RemoteErrorView::InvalidUrl),
        UrlView::Url { scheme, host, path } => if scheme == file_scheme() {
            Ok(LocationView::File { root: path })
        } else if scheme == s3_scheme() {
            match host {
                Some(b) => Ok(LocationView::S3 { bucket: b, prefix: s3_prefix_spec(path)->0 }),
                None => Err(RemoteErrorView::MissingBucket),
            }
        } else {
            Err(RemoteErrorView::UnsupportedScheme(scheme))
        },
    }
}

fn is_file_scheme(s: &[u8]) -> (r: bool)
    ensures
        r == (s@ == file_scheme()),
{
    let r = s.len() == 4 && s[0] == 102u8 && s[1] == 105u8 && s[2] == 108u8 && s[3] == 101u8;
    proof {
        if r {
            assert(s@ =~= file_scheme());
        }
    }
    r
}

fn is_s3_scheme(s: &[u8]) -> (r: bool)
    ensures
        r == (s@ == s3_scheme()),
{
    let r = s.len() == 2 && s[0] == 115u8 && s[1] == 51u8;
    proof {
        if r {
            assert(s@ =~= s3_scheme());
        }
    }
    r
}

/// Where the location `location` names, given what it parsed to: a relative
/// URL is a directory path as written; a `file:` URL names its path; an `s3:`
/// URL names its host as the bucket, with its path; other schemes are refused.
pub fn location_from_url(location: &str, parsed: ParsedUrl) -> (r: Result<RemoteLocation, RemoteError>)
    requires
        s3_path_rooted(parsed@),
    ensures
        location_result_view(r) == location_spec(location.spec_bytes(), parsed@),
        parsed matches ParsedUrl::Invalid(e) ==> (r matches Err(RemoteError::InvalidUrl(e2)) && e2 == e),
{
    match parsed {
        ParsedUrl::RelativeWithoutBase => {
            let b = location.as_bytes();
            let root = copy_range(b, 0, b.len());
            assert(b@.subrange(0, b@.len() as int) == b@);
            Ok(RemoteLocation::File { root })
        },
        ParsedUrl::Invalid(e) => Err(RemoteError::InvalidUrl(e)),
        ParsedUrl::Url(parts) => {
            if is_file_scheme(parts.scheme.as_slice()) {
                Ok(RemoteLocation::File { root: parts.path })
            } else if is_s3_scheme(parts.scheme.as_slice()) {
                match parts.host {
                    Some(bucket) => {
                        let prefix = s3_prefix(parts.path.as_slice());
                        Ok(RemoteLocation::S3 { bucket, prefix: prefix.unwrap() })
                    },
                    None => Err(RemoteError::MissingBucket),
                }
            } else {
                Err(RemoteError::UnsupportedScheme(parts.scheme))
            }
        },
    }
}

/// Where the location `location` names: it is parsed as a URL, and a text that
/// is a relative URL is taken as a directory path. `None` where it is an `s3:`
/// URL with a bucket whose path does not start at the root, which names no prefix.
pub fn from_location(location: &str) -> (r: Option<Result<RemoteLocation, RemoteError>>)
    ensures
        r is None <==> !s3_path_rooted(url_parse(location@)),
        r matches Some(x) ==> location_result_view(x) == location_spec(location.spec_bytes(), url_parse(location@)),
{
    let parsed = parse_url(location);
    if !path_rooted(&parsed) {
        return None;
    }
    Some(location_from_url(location, parsed))
}

fn path_rooted(parsed: &ParsedUrl) -> (r: bool)
    ensures
        r == s3_path_rooted(parsed@),
{
    match parsed {
        ParsedUrl::Url(parts) => {
            if is_s3_scheme(parts.scheme.as_slice()) && parts.host.is_some() {
                parts.path.len() > 0 && parts.path[0] == 47u8
            } else {
                true
            }
        },
        _ => true,
    }
}

} // verus!
