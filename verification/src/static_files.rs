//! Files: which file a request path names below a mount, and the response that serves it.

use vstd::prelude::*;
use vstd::slice::slice_subrange;

use crate::headers;
use crate::host;
use crate::host::HostRouter;
use crate::media;
use crate::numeral;
use crate::outside;
use crate::text;
use crate::text::Trim;
use crate::url;

verus! {

// ---------------------------------------------------------------------------
// Ranges
// ---------------------------------------------------------------------------

/// The first and the last position of the bytes that a `Range` header asks for out of
/// `size` bytes, where it asks for any: `bytes=A-B`, `bytes=A-` or `bytes=-N`.
pub open spec fn byte_range(range: Seq<char>, size: int) -> Option<(int, int)> {
    let r = text::trimmed(range, Trim::Space);
    if size <= 0 || !text::has_prefix(r, "bytes="@) {
        None
    } else {
        match text::cut(r.skip(6), '-') {
            None => None,
            Some((a, b)) => {
                let s = text::trimmed(a, Trim::Space);
                let e = text::trimmed(b, Trim::Space);
                if s.len() == 0 {
                    match numeral::usize_of(e, 10) {
                        Some(n) => if n == 0 {
                            None
                        } else if n >= size {
                            Some((0, size - 1))
                        } else {
                            Some((size - n, size - 1))
                        },
                        None => None,
                    }
                } else {
                    let last = if e.len() == 0 {
                        Some(size - 1)
                    } else {
                        match numeral::usize_of(e, 10) {
                            Some(n) => if n < size {
                                Some(n as int)
                            } else {
                                Some(size - 1)
                            },
                            None => None,
                        }
                    };
                    match (numeral::usize_of(s, 10), last) {
                        (Some(first), Some(l)) => if first <= l {
                            Some((first as int, l))
                        } else {
                            None
                        },
                        _ => None,
                    }
                }
            },
        }
    }
}

/// Reads a `Range` header with a single range.
pub fn parse_range(range: &str, size: usize) -> (r: Option<(usize, usize)>)
    ensures
        r is Some == byte_range(range@, size as int) is Some,
        r matches Some((a, b)) ==> byte_range(range@, size as int) == Some((a as int, b as int)),
{
    if size == 0 {
        return None;
    }
    let cs = text::chars_of(range);
    let r = text::trim(cs.as_slice(), Trim::Space);
    let unit = text::chars_of("bytes=");
    proof {
        reveal_strlit("bytes=");
    }
    if !text::starts_with(r, unit.as_slice()) {
        return None;
    }
    let spec = slice_subrange(r, 6, r.len());
    assert(spec@ == r@.skip(6));
    let k = text::find_char(spec, '-');
    if k == spec.len() {
        return None;
    }
    let s = text::trim(slice_subrange(spec, 0, k), Trim::Space);
    let after = slice_subrange(spec, k + 1, spec.len());
    assert(after@ == spec@.skip(k + 1));
    let e = text::trim(after, Trim::Space);
    if s.len() == 0 {
        match numeral::parse_usize(e, 10) {
            Some(n) => if n == 0 {
                None
            } else if n >= size {
                Some((0, size - 1))
            } else {
                Some((size - n, size - 1))
            },
            None => None,
        }
    } else {
        let first = match numeral::parse_usize(s, 10) {
            Some(n) => n,
            None => {
                return None;
            },
        };
        let last = if e.len() == 0 {
            size - 1
        } else {
            match numeral::parse_usize(e, 10) {
                Some(n) => if n < size {
                    n
                } else {
                    size - 1
                },
                None => {
                    return None;
                },
            }
        };
        if first > last {
            None
        } else {
            Some((first, last))
        }
    }
}

/// A range lies within the file and is not empty.
pub proof fn law_range_lies_within(range: Seq<char>, size: int)
    ensures
        byte_range(range, size) matches Some((a, b)) ==> 0 <= a <= b < size,
{
}

// ---------------------------------------------------------------------------
// Responses
// ---------------------------------------------------------------------------

/// The response that serves a file.
pub struct StaticResp {
    pub status: u16,
    pub body: Vec<u8>,
    pub content_type: String,
    pub extra: Vec<(String, String)>,
}

/// The mathematical content of a file response.
#[verifier::ext_equal]
pub struct StaticView {
    pub status: u16,
    pub body: Seq<u8>,
    pub content_type: Seq<char>,
    pub extra: Seq<(Seq<char>, Seq<char>)>,
}

impl View for StaticResp {
    type V = StaticView;

    open spec fn view(&self) -> StaticView {
        StaticView {
            status: self.status,
            body: self.body@,
            content_type: self.content_type@,
            extra: headers::pairs(self.extra@),
        }
    }
}

/// The entity tag of a file: its size and the second of its last change, in hexadecimal.
pub open spec fn entity_tag(size: nat, mtime: nat) -> Seq<char> {
    "\""@ + numeral::numeral(size, 16) + "-"@ + numeral::numeral(mtime, 16) + "\""@
}

/// The entity tag of a file of that size that was last changed at that second, or at an
/// unknown time.
pub fn etag_for(size: usize, mtime: Option<u64>) -> (r: String)
    ensures
        r@ == entity_tag(
            size as nat,
            match mtime {
                Some(t) => t as nat,
                None => 0,
            },
        ),
{
    let seconds: u64 = match mtime {
        Some(t) => t,
        None => 0,
    };
    let mut r = "\"".to_owned();
    r.append(numeral::u64_to_hex(size as u64).as_str());
    r.append("-");
    r.append(numeral::u64_to_hex(seconds).as_str());
    r.append("\"");
    r
}

/// Compresses with gzip.
pub fn gzip_bytes(data: &Vec<u8>) -> (r: Option<Vec<u8>>)
    ensures
        r matches Some(z) && z@ == outside::gzipped(data@) && z@.len() >= 2 && z@[0] == 0x1f && z@[1]
            == 0x8b && outside::gunzipped(z@) == data@,
{
    outside::gzip(data.as_slice())
}

/// The headers that name the tag and offer ranges.
pub open spec fn tag_headers(tag: Seq<char>) -> Seq<(Seq<char>, Seq<char>)> {
    seq![("ETag"@, tag), ("Accept-Ranges"@, "bytes"@)]
}

/// The client already has the file under this tag.
pub open spec fn is_fresh(tag: Seq<char>, h: Seq<(Seq<char>, Seq<char>)>) -> bool {
    let known = headers::header(h, "if-none-match"@);
    known.len() > 0 && text::trimmed(known, Trim::Space) == tag
}

/// The client takes gzip, and the type is worth it.
pub open spec fn wants_gzip(content_type: Seq<char>, h: Seq<(Seq<char>, Seq<char>)>) -> bool {
    &&& text::contains_text(outside::lowercase(headers::header(h, "accept-encoding"@)), "gzip"@)
    &&& media::compressible(content_type)
}

/// How a file is served. `zipped` is what gzip makes of it.
pub open spec fn served_with(
    data: Seq<u8>,
    content_type: Seq<char>,
    tag: Seq<char>,
    h: Seq<(Seq<char>, Seq<char>)>,
    zipped: Option<Seq<u8>>,
) -> StaticView {
    let range = headers::header(h, "range"@);
    if is_fresh(tag, h) {
        StaticView { status: 304, body: seq![], content_type, extra: tag_headers(tag) }
    } else if range.len() > 0 {
        match byte_range(range, data.len() as int) {
            Some((a, b)) => StaticView {
                status: 206,
                body: data.subrange(a, b + 1),
                content_type,
                extra: tag_headers(tag).push(
                    (
                        "Content-Range"@,
                        "bytes "@ + numeral::decimal(a as nat) + "-"@ + numeral::decimal(b as nat)
                            + "/"@ + numeral::decimal(data.len()),
                    ),
                ),
            },
            None => StaticView {
                status: 416,
                body: seq![],
                content_type,
                extra: seq![("Content-Range"@, "bytes */"@ + numeral::decimal(data.len()))],
            },
        }
    } else if wants_gzip(content_type, h) && zipped is Some {
        StaticView {
            status: 200,
            body: zipped->0,
            content_type,
            extra: tag_headers(tag).push(("Content-Encoding"@, "gzip"@)).push(
                ("Vary"@, "Accept-Encoding"@),
            ),
        }
    } else {
        StaticView { status: 200, body: data, content_type, extra: tag_headers(tag) }
    }
}

/// How a file is served: not at all where the client has it already, a range where it asks
/// for one, compressed where it takes that, else as it is.
pub open spec fn served(
    data: Seq<u8>,
    content_type: Seq<char>,
    tag: Seq<char>,
    h: Seq<(Seq<char>, Seq<char>)>,
) -> StaticView {
    served_with(data, content_type, tag, h, Some(outside::gzipped(data)))
}

/// The file is sent compressed.
pub open spec fn sends_gzip(
    content_type: Seq<char>,
    tag: Seq<char>,
    h: Seq<(Seq<char>, Seq<char>)>,
) -> bool {
    &&& !is_fresh(tag, h)
    &&& headers::header(h, "range"@).len() == 0
    &&& wants_gzip(content_type, h)
}

fn tagged(tag: &str) -> (v: Vec<(String, String)>)
    ensures
        headers::pairs(v@) == tag_headers(tag@),
{
    let mut v = headers::new_headers();
    headers::push_header(&mut v, "ETag", tag.to_owned());
    headers::push_header(&mut v, "Accept-Ranges", "bytes".to_owned());
    assert(headers::pairs(v@) =~= tag_headers(tag@));
    v
}

/// Whether the client takes gzip for content of that type.
fn takes_gzip(content_type: &str, request: &Vec<(String, String)>) -> (r: bool)
    ensures
        r == wants_gzip(content_type@, headers::pairs(request@)),
{
    let accepted = headers::header_value(request, "accept-encoding");
    let lower = outside::to_lowercase(accepted.as_str());
    let cs = text::chars_of(lower.as_str());
    text::contains(cs.as_slice(), text::chars_of("gzip").as_slice()) && media::is_compressible(
        content_type,
    )
}

/// Serves a part of a file.
fn serve_range(data: Vec<u8>, content_type: String, tag: &str, range: &str) -> (r: StaticResp)
    ensures
        match byte_range(range@, data@.len() as int) {
            Some((a, b)) => r@ == (StaticView {
                status: 206,
                body: data@.subrange(a, b + 1),
                content_type: content_type@,
                extra: tag_headers(tag@).push(
                    (
                        "Content-Range"@,
                        "bytes "@ + numeral::decimal(a as nat) + "-"@ + numeral::decimal(b as nat)
                            + "/"@ + numeral::decimal(data@.len()),
                    ),
                ),
            }),
            None => r@ == (StaticView {
                status: 416,
                body: seq![],
                content_type: content_type@,
                extra: seq![("Content-Range"@, "bytes */"@ + numeral::decimal(data@.len()))],
            }),
        },
{
    let size = numeral::u64_to_string(data.len() as u64);
    match parse_range(range, data.len()) {
        Some((a, b)) => {
            proof {
                law_range_lies_within(range@, data@.len() as int);
            }
            let mut place = "bytes ".to_owned();
            place.append(numeral::u64_to_string(a as u64).as_str());
            place.append("-");
            place.append(numeral::u64_to_string(b as u64).as_str());
            place.append("/");
            place.append(size.as_str());
            let mut extra = tagged(tag);
            headers::push_header(&mut extra, "Content-Range", place);
            let body = vstd::slice::slice_to_vec(slice_subrange(data.as_slice(), a, b + 1));
            let r = StaticResp { status: 206, body, content_type, extra };
            r
        },
        None => {
            let mut place = "bytes */".to_owned();
            place.append(size.as_str());
            let mut extra = headers::new_headers();
            headers::push_header(&mut extra, "Content-Range", place);
            let body: Vec<u8> = Vec::new();
            let r = StaticResp { status: 416, body, content_type, extra };
            assert(headers::pairs(r.extra@) =~= seq![
                ("Content-Range"@, "bytes */"@ + numeral::decimal(data@.len())),
            ]);
            r
        },
    }
}

/// Serves a file, given what gzip makes of it.
pub fn respond_with(
    data: Vec<u8>,
    content_type: String,
    tag: &str,
    request: &Vec<(String, String)>,
    zipped: Option<Vec<u8>>,
) -> (r: StaticResp)
    ensures
        r@ == served_with(
            data@,
            content_type@,
            tag@,
            headers::pairs(request@),
            match zipped {
                Some(z) => Some(z@),
                None => None,
            },
        ),
{
    let known = headers::header_value(request, "if-none-match");
    if !known.as_str().is_empty() {
        let cs = text::chars_of(known.as_str());
        let trimmed = text::string_of(text::trim(cs.as_slice(), Trim::Space));
        if text::str_eq(trimmed.as_str(), tag) {
            let body: Vec<u8> = Vec::new();
            return StaticResp { status: 304, body, content_type, extra: tagged(tag) };
        }
    }
    let range = headers::header_value(request, "range");
    if !range.as_str().is_empty() {
        return serve_range(data, content_type, tag, range.as_str());
    }
    if takes_gzip(content_type.as_str(), request) {
        if let Some(z) = zipped {
            let mut extra = tagged(tag);
            headers::push_header(&mut extra, "Content-Encoding", "gzip".to_owned());
            headers::push_header(&mut extra, "Vary", "Accept-Encoding".to_owned());
            return StaticResp { status: 200, body: z, content_type, extra };
        }
    }
    StaticResp { status: 200, body: data, content_type, extra: tagged(tag) }
}

/// Serves a file.
pub fn static_response(
    data: Vec<u8>,
    content_type: String,
    tag: &str,
    request: &Vec<(String, String)>,
) -> (r: StaticResp)
    ensures
        r@ == served(data@, content_type@, tag@, headers::pairs(request@)),
        sends_gzip(content_type@, tag@, headers::pairs(request@)) ==> outside::gunzipped(
            r.body@,
        ) == data@,
{
    let zipped = if takes_gzip(content_type.as_str(), request) {
        gzip_bytes(&data)
    } else {
        None
    };
    respond_with(data, content_type, tag, request, zipped)
}

/// A client that sends the tag of a file back gets no body while the file stands under that
/// tag.
pub proof fn law_known_file_is_not_sent_again(
    data: Seq<u8>,
    content_type: Seq<char>,
    mtime: nat,
    h: Seq<(Seq<char>, Seq<char>)>,
)
    requires
        headers::header(h, "if-none-match"@) == entity_tag(data.len(), mtime),
    ensures
        served(data, content_type, entity_tag(data.len(), mtime), h).status == 304,
        served(data, content_type, entity_tag(data.len(), mtime), h).body.len() == 0,
{
    let tag = entity_tag(data.len(), mtime);
    reveal_strlit("\"");
    assert(tag[0] == '"');
    assert(tag.last() == '"');
    text::lemma_trimmed_same(tag, Trim::Space);
}

/// A range response holds as many bytes as the range names, and they are those of the file.
pub proof fn law_range_response(
    data: Seq<u8>,
    content_type: Seq<char>,
    tag: Seq<char>,
    h: Seq<(Seq<char>, Seq<char>)>,
)
    ensures
        served(data, content_type, tag, h).status == 206 ==> {
            &&& byte_range(headers::header(h, "range"@), data.len() as int) matches Some((a, b))
            &&& served(data, content_type, tag, h).body.len() == b - a + 1
            &&& forall|i: int|
                0 <= i <= b - a ==> #[trigger] served(data, content_type, tag, h).body[i] == data[a
                    + i]
        },
        served(data, content_type, tag, h).status == 416 ==> byte_range(
            headers::header(h, "range"@),
            data.len() as int,
        ) is None,
{
}

// ---------------------------------------------------------------------------
// Which file
// ---------------------------------------------------------------------------

/// The file that a path below a mount names: the index where it names the mount itself.
pub open spec fn wanted(rel: Seq<char>) -> Seq<char> {
    let r = text::trim_left(url::unquoted(rel), Trim::Slash);
    if r.len() == 0 {
        "index.html"@
    } else {
        r
    }
}

/// The file that a path below a mount names.
pub fn wanted_file(rel: &str) -> (r: String)
    ensures
        r@ == wanted(rel@),
{
    let plain = url::unquote(rel);
    let cs = text::chars_of(plain.as_str());
    let t = text::trim_start(cs.as_slice(), Trim::Slash);
    if t.len() == 0 {
        "index.html".to_owned()
    } else {
        text::string_of(t)
    }
}

/// The second byte of a name is a colon: the name begins with a drive letter.
pub open spec fn names_drive(name: Seq<char>) -> bool {
    name.len() > 1 && (name[0] as u32) < 0x80 && name[1] == ':'
}

/// A name may be looked up below a directory: it is no absolute path and names no drive.
pub fn may_look_up(name: &str, absolute: bool) -> (r: bool)
    ensures
        r == (!absolute && !names_drive(name@)),
{
    let cs = text::chars_of(name);
    !absolute && !(cs.len() > 1 && (cs[0] as u32) < 0x80 && cs[1] == ':')
}

/// The views of path components.
pub open spec fn components(path: Seq<Vec<u8>>) -> Seq<Seq<u8>> {
    path.map_values(|c: Vec<u8>| c@)
}

/// `target` is `base` or lies below it: its first components are those of `base`.
pub open spec fn lies_within(base: Seq<Seq<u8>>, target: Seq<Seq<u8>>) -> bool {
    base.len() <= target.len() && target.take(base.len() as int) == base
}

fn bytes_eq(a: &Vec<u8>, b: &Vec<u8>) -> (r: bool)
    ensures
        r == (a@ == b@),
{
    if a.len() != b.len() {
        return false;
    }
    for i in 0..a.len()
        invariant
            a@.len() == b@.len(),
            forall|j: int| 0 <= j < i ==> a@[j] == b@[j],
    {
        if a[i] != b[i] {
            return false;
        }
    }
    assert(a@ =~= b@);
    true
}

/// Whether a real path is a directory or lies below it.
pub fn within(base: &Vec<Vec<u8>>, target: &Vec<Vec<u8>>) -> (r: bool)
    ensures
        r == lies_within(components(base@), components(target@)),
{
    if base.len() > target.len() {
        return false;
    }
    let ghost b = components(base@);
    let ghost t = components(target@).take(b.len() as int);
    for i in 0..base.len()
        invariant
            base@.len() <= target@.len(),
            b == components(base@),
            t == components(target@).take(b.len() as int),
            forall|j: int| 0 <= j < i ==> b[j] == t[j],
    {
        assert(b[i as int] == base@[i as int]@ && t[i as int] == target@[i as int]@);
        if !bytes_eq(&base[i], &target[i]) {
            return false;
        }
    }
    assert(t =~= b);
    true
}

/// What the file system says of a path: its real path and what stands there.
pub struct Found {
    pub real: Vec<Vec<u8>>,
    pub is_dir: bool,
    pub is_file: bool,
}

/// Which path is being looked up: the one that was asked for, or the index of the directory
/// that stands there.
#[derive(Clone, Copy)]
pub enum Lookup {
    Named,
    Index,
}

/// What to do next.
#[derive(Clone, Copy)]
pub enum NextLookup {
    /// Nothing is served from this mount.
    Fail,
    /// Look up the index of the directory.
    Index,
    /// Serve this file.
    Serve,
}

/// The decision on what the file system says of a path. Nothing outside `base` is served.
pub open spec fn lookup_decision(
    base: Seq<Seq<u8>>,
    stage: Lookup,
    found: Option<Found>,
) -> NextLookup {
    match found {
        None => NextLookup::Fail,
        Some(f) => if !lies_within(base, components(f.real@)) {
            NextLookup::Fail
        } else if stage is Named && f.is_dir {
            NextLookup::Index
        } else if f.is_file {
            NextLookup::Serve
        } else {
            NextLookup::Fail
        },
    }
}

/// Decides on what the file system says of a path.
pub fn resolve_in(base: &Vec<Vec<u8>>, stage: Lookup, found: &Option<Found>) -> (r: NextLookup)
    ensures
        r == lookup_decision(components(base@), stage, *found),
{
    match found {
        None => NextLookup::Fail,
        Some(f) => {
            if !within(base, &f.real) {
                return NextLookup::Fail;
            }
            let named = match stage {
                Lookup::Named => true,
                Lookup::Index => false,
            };
            if named && f.is_dir {
                NextLookup::Index
            } else if f.is_file {
                NextLookup::Serve
            } else {
                NextLookup::Fail
            }
        },
    }
}

/// What is served is a file that lies within the directory of its mount.
pub proof fn law_served_files_lie_within(
    base: Seq<Seq<u8>>,
    stage: Lookup,
    found: Option<Found>,
)
    ensures
        lookup_decision(base, stage, found) is Serve ==> {
            &&& found matches Some(f)
            &&& f.is_file
            &&& lies_within(base, components(f.real@))
        },
{
}

// ---------------------------------------------------------------------------
// Which mount
// ---------------------------------------------------------------------------

/// The first mount from position `i` on below whose prefix the path lies.
pub open spec fn mount_from(mounts: Seq<host::Mount>, path: Seq<char>, i: int) -> Option<int>
    decreases mounts.len() - i,
{
    if i < 0 || i >= mounts.len() {
        None
    } else if host::below(mounts[i].prefix@, path) is Some {
        Some(i)
    } else {
        mount_from(mounts, path, i + 1)
    }
}

impl HostRouter {
    /// The next mount that may hold the file for a path, from position `from` on, with the
    /// file's name below it.
    pub fn next_mount(&self, path: &str, from: usize) -> (r: Option<(usize, String)>)
        ensures
            r is Some == mount_from(self.static_mounts@, path@, from as int) is Some,
            r matches Some((i, name)) ==> {
                &&& i < self.static_mounts@.len()
                &&& mount_from(self.static_mounts@, path@, from as int) == Some(i as int)
                &&& host::below(self.static_mounts@[i as int].prefix@, path@) matches Some(rel)
                &&& name@ == wanted(rel)
            },
    {
        let mut i: usize = from;
        while i < self.static_mounts.len()
            invariant
                mount_from(self.static_mounts@, path@, from as int) == mount_from(
                    self.static_mounts@,
                    path@,
                    i as int,
                ),
            decreases self.static_mounts.len() - i,
        {
            if let Some(rel) = self.static_mounts[i].relative(path) {
                return Some((i, wanted_file(rel.as_str())));
            }
            i = i + 1;
        }
        None
    }
}

// ---------------------------------------------------------------------------
// The search through the mounts
// ---------------------------------------------------------------------------

/// A file that was found and read: its data, its extension with the dot, the type that the
/// machine knows for that, and the second of its last change where it is known.
pub struct Opened {
    pub data: Vec<u8>,
    pub ext: String,
    pub guessed: Option<String>,
    pub mtime: Option<u64>,
}

/// The mathematical content of a file that was read.
pub struct OpenedView {
    pub data: Seq<u8>,
    pub ext: Seq<char>,
    pub guessed: Option<Seq<char>>,
    pub mtime: Option<u64>,
}

impl View for Opened {
    type V = OpenedView;

    open spec fn view(&self) -> OpenedView {
        OpenedView {
            data: self.data@,
            ext: self.ext@,
            guessed: text::maybe(self.guessed),
            mtime: self.mtime,
        }
    }
}

/// The tag of a file that was read.
pub open spec fn opened_tag(o: OpenedView) -> Seq<char> {
    entity_tag(
        o.data.len(),
        match o.mtime {
            Some(t) => t as nat,
            None => 0,
        },
    )
}

/// The response with a file that was read.
pub open spec fn opened_response(o: OpenedView, h: Seq<(Seq<char>, Seq<char>)>) -> StaticView {
    served(o.data, media::file_type(o.ext, o.guessed), opened_tag(o), h)
}

/// What is to be done next in the search for a file.
pub enum MountStep {
    /// Look for the file of that name below the mount at that position.
    Try { mount: usize, name: String },
    /// Answer with this.
    Respond(StaticResp),
    /// No mount holds the file.
    Fail,
}

/// The mathematical content of such a step.
pub enum MountStepView {
    Try { mount: int, name: Seq<char> },
    Respond(StaticView),
    Fail,
}

impl View for MountStep {
    type V = MountStepView;

    open spec fn view(&self) -> MountStepView {
        match *self {
            MountStep::Try { mount, name } => MountStepView::Try { mount: mount as int, name: name@ },
            MountStep::Respond(r) => MountStepView::Respond(r@),
            MountStep::Fail => MountStepView::Fail,
        }
    }
}

/// The step that tries the first mount from position `i` on below which the path lies.
pub open spec fn try_from(mounts: Seq<host::Mount>, path: Seq<char>, i: int) -> MountStepView {
    match mount_from(mounts, path, i) {
        Some(m) => MountStepView::Try {
            mount: m,
            name: wanted(host::below(mounts[m].prefix@, path)->0),
        },
        None => MountStepView::Fail,
    }
}

/// The step after a mount was tried: the answer where it held the file, else the next mount.
pub open spec fn step_after(
    mounts: Seq<host::Mount>,
    path: Seq<char>,
    mount: int,
    opened: Option<OpenedView>,
    h: Seq<(Seq<char>, Seq<char>)>,
) -> MountStepView {
    match opened {
        Some(o) => MountStepView::Respond(opened_response(o, h)),
        None => try_from(mounts, path, mount + 1),
    }
}

/// The response with a file that was read.
pub fn respond_opened(o: Opened, request: &Vec<(String, String)>) -> (r: StaticResp)
    ensures
        r@ == opened_response(o@, headers::pairs(request@)),
        sends_gzip(
            media::file_type(o@.ext, o@.guessed),
            opened_tag(o@),
            headers::pairs(request@),
        ) ==> outside::gunzipped(r.body@) == o@.data,
{
    let guessed = match &o.guessed {
        Some(g) => Some(g.as_str()),
        None => None,
    };
    let content_type = media::static_content_type(o.ext.as_str(), guessed);
    let tag = etag_for(o.data.len(), o.mtime);
    static_response(o.data, content_type, tag.as_str(), request)
}

impl HostRouter {
    fn try_mount(&self, path: &str, from: usize) -> (r: MountStep)
        ensures
            r@ == try_from(self.static_mounts@, path@, from as int),
            r matches MountStep::Try { mount, .. } ==> mount < self.static_mounts@.len(),
    {
        match self.next_mount(path, from) {
            Some((mount, name)) => MountStep::Try { mount, name },
            None => MountStep::Fail,
        }
    }

    /// Begins the search for the file that a path names.
    pub fn first_mount(&self, path: &str) -> (r: MountStep)
        ensures
            r@ == try_from(self.static_mounts@, path@, 0),
            r matches MountStep::Try { mount, .. } ==> mount < self.static_mounts@.len(),
    {
        self.try_mount(path, 0)
    }

    /// Goes on after a mount was tried.
    pub fn after_mount(
        &self,
        path: &str,
        mount: usize,
        opened: Option<Opened>,
        request: &Vec<(String, String)>,
    ) -> (r: MountStep)
        requires
            mount < self.static_mounts@.len(),
        ensures
            r@ == step_after(
                self.static_mounts@,
                path@,
                mount as int,
                match opened {
                    Some(o) => Some(o@),
                    None => None,
                },
                headers::pairs(request@),
            ),
            r matches MountStep::Try { mount, .. } ==> mount < self.static_mounts@.len(),
    {
        match opened {
            Some(o) => MountStep::Respond(respond_opened(o, request)),
            None => {
                assert(mount < self.static_mounts.len());
                self.try_mount(path, mount + 1)
            },
        }
    }
}

/// The first mount from position `i` on below which the path lies and that holds the file.
/// `held[m]` is what was found below mount `m`.
pub open spec fn answering(
    mounts: Seq<host::Mount>,
    path: Seq<char>,
    held: Seq<Option<OpenedView>>,
    i: int,
) -> Option<int>
    decreases mounts.len() - i,
{
    if i < 0 || i >= mounts.len() {
        None
    } else if host::below(mounts[i].prefix@, path) is Some && held[i] is Some {
        Some(i)
    } else {
        answering(mounts, path, held, i + 1)
    }
}

/// What comes of the search from a step on, where the mounts hold these files.
pub open spec fn search(
    mounts: Seq<host::Mount>,
    path: Seq<char>,
    held: Seq<Option<OpenedView>>,
    h: Seq<(Seq<char>, Seq<char>)>,
    i: int,
) -> Option<StaticView>
    decreases mounts.len() - i,
{
    match try_from(mounts, path, i) {
        MountStepView::Try { mount, name } => {
            proof {
                lemma_mount_from(mounts, path, i);
            }
            match step_after(mounts, path, mount, held[mount], h) {
                MountStepView::Respond(r) => Some(r),
                _ => search(mounts, path, held, h, mount + 1),
            }
        },
        _ => None,
    }
}

pub proof fn lemma_mount_from(mounts: Seq<host::Mount>, path: Seq<char>, i: int)
    ensures
        mount_from(mounts, path, i) matches Some(m) ==> {
            &&& 0 <= i <= m < mounts.len()
            &&& host::below(mounts[m].prefix@, path) is Some
            &&& forall|j: int|
                i <= j < m ==> host::below((#[trigger] mounts[j]).prefix@, path) is None
        },
        mount_from(mounts, path, i) is None && i >= 0 ==> forall|j: int|
            i <= j < mounts.len() ==> host::below((#[trigger] mounts[j]).prefix@, path) is None,
    decreases mounts.len() - i,
{
    if 0 <= i < mounts.len() && host::below(mounts[i].prefix@, path) is None {
        lemma_mount_from(mounts, path, i + 1);
    }
}

proof fn lemma_passed_over(
    mounts: Seq<host::Mount>,
    path: Seq<char>,
    held: Seq<Option<OpenedView>>,
    i: int,
    k: int,
)
    requires
        0 <= i <= k <= mounts.len(),
        forall|j: int|
            i <= j < k ==> host::below((#[trigger] mounts[j]).prefix@, path) is None,
    ensures
        answering(mounts, path, held, i) == answering(mounts, path, held, k),
    decreases k - i,
{
    if i < k {
        lemma_passed_over(mounts, path, held, i + 1, k);
    }
}

/// The search goes on behind a mount that does not hold the file, and the first mount that
/// does answers with it; where none does there is no answer.
pub proof fn law_first_mount_that_holds_answers(
    mounts: Seq<host::Mount>,
    path: Seq<char>,
    held: Seq<Option<OpenedView>>,
    h: Seq<(Seq<char>, Seq<char>)>,
    i: int,
)
    requires
        held.len() == mounts.len(),
        0 <= i <= mounts.len(),
    ensures
        search(mounts, path, held, h, i) == match answering(mounts, path, held, i) {
            Some(m) => Some(opened_response(held[m]->0, h)),
            None => None,
        },
    decreases mounts.len() - i,
{
    lemma_mount_from(mounts, path, i);
    match mount_from(mounts, path, i) {
        Some(m) => {
            lemma_passed_over(mounts, path, held, i, m);
            if held[m] is None {
                law_first_mount_that_holds_answers(mounts, path, held, h, m + 1);
            }
        },
        None => {
            lemma_passed_over(mounts, path, held, i, mounts.len() as int);
        },
    }
}

/// A file of a type that is worth it is sent compressed to a client that takes gzip and asks
/// for neither a range nor a newer version, and as it is to any other such client; its tag is
/// the same either way.
pub proof fn law_compression_is_owed(o: OpenedView, h: Seq<(Seq<char>, Seq<char>)>)
    requires
        headers::header(h, "if-none-match"@).len() == 0,
        headers::header(h, "range"@).len() == 0,
        media::compressible(media::file_type(o.ext, o.guessed)),
    ensures
        ({
            let r = opened_response(o, h);
            let takes = text::contains_text(
                outside::lowercase(headers::header(h, "accept-encoding"@)),
                "gzip"@,
            );
            &&& r.status == 200
            &&& r.extra.contains(("ETag"@, opened_tag(o)))
            &&& takes ==> {
                &&& r.body == outside::gzipped(o.data)
                &&& r.extra.contains(("Content-Encoding"@, "gzip"@))
                &&& r.extra.contains(("Vary"@, "Accept-Encoding"@))
            }
            &&& !takes ==> r.body == o.data && r.extra == tag_headers(opened_tag(o))
        }),
{
    let r = opened_response(o, h);
    assert(r.extra[0] == ("ETag"@, opened_tag(o)));
    if r.extra.len() == 4 {
        assert(r.extra[2] == ("Content-Encoding"@, "gzip"@));
        assert(r.extra[3] == ("Vary"@, "Accept-Encoding"@));
    }
}

/// A client is told that it has the file only where it names the tag under which the file
/// stands now; a client that names any other tag, or none, and asks for no range gets the
/// file, whole or as gzip makes it. The type stays the file's, and every answer with the file
/// or a part of it, or that it stands, names the tag and offers ranges.
pub proof fn law_only_the_current_tag_spares_the_file(
    data: Seq<u8>,
    content_type: Seq<char>,
    tag: Seq<char>,
    h: Seq<(Seq<char>, Seq<char>)>,
    zipped: Option<Seq<u8>>,
)
    ensures
        ({
            let r = served_with(data, content_type, tag, h, zipped);
            let known = headers::header(h, "if-none-match"@);
            let range = headers::header(h, "range"@);
            &&& r.status == 304 <==> known.len() > 0 && text::trimmed(known, Trim::Space) == tag
            &&& r.status == 304 ==> r.body.len() == 0
            &&& (known.len() == 0 || text::trimmed(known, Trim::Space) != tag) && range.len() == 0
                ==> r.status == 200 && (r.body == data || zipped == Some(r.body))
            &&& (known.len() == 0 || text::trimmed(known, Trim::Space) != tag) && range.len() > 0
                ==> r.status == 206 || r.status == 416
            &&& r.content_type == content_type
            &&& r.status != 416 ==> r.extra.len() >= 2 && r.extra[0] == ("ETag"@, tag) && r.extra[1]
                == ("Accept-Ranges"@, "bytes"@)
            &&& zipped is None && r.status == 200 ==> r.body == data && r.extra.len() == 2
        }),
        served(data, content_type, tag, h) == served_with(
            data,
            content_type,
            tag,
            h,
            Some(outside::gzipped(data)),
        ),
{
}

proof fn lemma_hex_has_no_dash(n: nat)
    ensures
        numeral::numeral(n, 16).len() > 0,
        forall|i: int|
            0 <= i < numeral::numeral(n, 16).len() ==> #[trigger] numeral::numeral(n, 16)[i] != '-',
{
    numeral::law_numerals_read_back(n, 16);
    let s = numeral::numeral(n, 16);
    assert forall|i: int| 0 <= i < s.len() implies #[trigger] s[i] != '-' by {
        assert(numeral::digit_value(s[i], 16) is Some);
    }
}

/// Files that differ in size or in the second of their last change have different tags, and
/// a tag stands between quotes.
pub proof fn law_changed_file_has_another_tag(size: nat, mtime: nat, size2: nat, mtime2: nat)
    ensures
        entity_tag(size, mtime) == entity_tag(size2, mtime2) ==> size == size2 && mtime == mtime2,
        entity_tag(size, mtime)[0] == '"',
        entity_tag(size, mtime).last() == '"',
        entity_tag(size, mtime) == seq!['"'] + numeral::numeral(size, 16) + seq!['-']
            + numeral::numeral(mtime, 16) + seq!['"'],
{
    reveal_strlit("\"");
    reveal_strlit("-");
    assert("\""@ =~= seq!['"']);
    assert("-"@ =~= seq!['-']);
    if entity_tag(size, mtime) == entity_tag(size2, mtime2) {
        lemma_hex_has_no_dash(size);
        lemma_hex_has_no_dash(size2);
        let a = seq!['"'] + numeral::numeral(size, 16);
        let b = numeral::numeral(mtime, 16) + seq!['"'];
        let a2 = seq!['"'] + numeral::numeral(size2, 16);
        let b2 = numeral::numeral(mtime2, 16) + seq!['"'];
        assert(entity_tag(size, mtime) =~= a + seq!['-'] + b);
        assert(entity_tag(size2, mtime2) =~= a2 + seq!['-'] + b2);
        text::law_text_is_cut_at_the_first(a, '-', b);
        text::law_text_is_cut_at_the_first(a2, '-', b2);
        assert(a == a2 && b == b2);
        assert(a.drop_first() =~= numeral::numeral(size, 16));
        assert(a2.drop_first() =~= numeral::numeral(size2, 16));
        assert(b.drop_last() =~= numeral::numeral(mtime, 16));
        assert(b2.drop_last() =~= numeral::numeral(mtime2, 16));
        numeral::law_numerals_read_back(size, 16);
        numeral::law_numerals_read_back(size2, 16);
        numeral::law_numerals_read_back(mtime, 16);
        numeral::law_numerals_read_back(mtime2, 16);
    }
}

/// A file that was changed since the client got it is sent anew: the tag of the old file does
/// not spare the new one.
pub proof fn law_changed_file_is_sent_anew(
    data: Seq<u8>,
    content_type: Seq<char>,
    mtime: nat,
    old_size: nat,
    old_mtime: nat,
    h: Seq<(Seq<char>, Seq<char>)>,
)
    requires
        old_size != data.len() || old_mtime != mtime,
        headers::header(h, "if-none-match"@) == entity_tag(old_size, old_mtime),
        headers::header(h, "range"@).len() == 0,
    ensures
        ({
            let r = served(data, content_type, entity_tag(data.len(), mtime), h);
            &&& r.status == 200
            &&& r.body == data || r.body == outside::gzipped(data)
            &&& r.extra[0] == ("ETag"@, entity_tag(data.len(), mtime))
        }),
{
    let known = entity_tag(old_size, old_mtime);
    law_changed_file_has_another_tag(old_size, old_mtime, data.len(), mtime);
    text::lemma_trimmed_same(known, Trim::Space);
}

proof fn lemma_plain_number(n: usize)
    ensures
        numeral::decimal(n as nat).len() > 0,
        text::trimmed(numeral::decimal(n as nat), Trim::Space) == numeral::decimal(n as nat),
        numeral::usize_of(numeral::decimal(n as nat), 10) == Some(n),
        forall|i: int|
            0 <= i < numeral::decimal(n as nat).len() ==> '0' <= #[trigger] numeral::decimal(
                n as nat,
            )[i] <= '9',
{
    let s = numeral::decimal(n as nat);
    numeral::law_numerals_read_back(n as nat, 10);
    assert forall|i: int| 0 <= i < s.len() implies '0' <= #[trigger] s[i] <= '9' by {
        assert(numeral::digit_value(s[i], 10) is Some);
        numeral::law_digits(0, s[i]);
    }
    assert(!text::is_space(s[0]) && !text::is_space(s.last()));
    text::lemma_trimmed_same(s, Trim::Space);
}

proof fn lemma_range_spec(a: Seq<char>, b: Seq<char>, size: int)
    requires
        forall|i: int| 0 <= i < a.len() ==> '0' <= #[trigger] a[i] <= '9',
        forall|i: int| 0 <= i < b.len() ==> '0' <= #[trigger] b[i] <= '9',
    ensures
        ({
            let whole = seq!['b', 'y', 't', 'e', 's', '='] + a + seq!['-'] + b;
            &&& text::trimmed(whole, Trim::Space) == whole
            &&& text::has_prefix(whole, "bytes="@)
            &&& text::cut(whole.skip(6), '-') == Some((a, b))
        }),
{
    reveal_strlit("bytes=");
    let unit = seq!['b', 'y', 't', 'e', 's', '='];
    assert("bytes="@ =~= unit);
    let whole = unit + a + seq!['-'] + b;
    assert(whole[0] == 'b');
    assert(whole.last() == if b.len() > 0 {
        b.last()
    } else {
        '-'
    });
    text::lemma_trimmed_same(whole, Trim::Space);
    assert(whole.take(6) =~= unit);
    assert(whole.skip(6) =~= a + seq!['-'] + b);
    text::law_text_is_cut_at_the_first(a, '-', b);
}

/// The three forms of a range: from one byte to another, from one byte on, and the last so
/// many. A range that goes beyond the file ends with it; one that begins beyond it, or that
/// ends before it begins, is none.
pub proof fn law_ranges_are_read(a: usize, b: usize, size: usize)
    ensures
        ({
            let unit = seq!['b', 'y', 't', 'e', 's', '='];
            let from = numeral::decimal(a as nat);
            let to = numeral::decimal(b as nat);
            let last = if b < size {
                b as int
            } else {
                size - 1
            };
            &&& byte_range(unit + from + seq!['-'] + to, size as int) == if a <= b && a < size {
                Some((a as int, last))
            } else {
                None
            }
            &&& byte_range(unit + from + seq!['-'], size as int) == if a < size {
                Some((a as int, size - 1))
            } else {
                None
            }
            &&& byte_range(unit + seq!['-'] + to, size as int) == if b == 0 || size == 0 {
                None
            } else if b >= size {
                Some((0int, size - 1))
            } else {
                Some((size - b, size - 1))
            }
        }),
{
    let unit = seq!['b', 'y', 't', 'e', 's', '='];
    let from = numeral::decimal(a as nat);
    let to = numeral::decimal(b as nat);
    let none = Seq::<char>::empty();
    lemma_plain_number(a);
    lemma_plain_number(b);
    lemma_range_spec(from, to, size as int);
    lemma_range_spec(from, none, size as int);
    lemma_range_spec(none, to, size as int);
    assert(unit + from + seq!['-'] + none =~= unit + from + seq!['-']);
    assert(unit + none + seq!['-'] + to =~= unit + seq!['-'] + to);
    assert(text::trimmed(none, Trim::Space) =~= none);
}

/// A range in another unit, or of an empty file, is none.
pub proof fn law_other_units_are_no_ranges(range: Seq<char>, size: int)
    ensures
        size <= 0 ==> byte_range(range, size) is None,
        range.len() > 0 && range[0] != 'b' && !text::is_space(range[0]) ==> byte_range(
            range,
            size,
        ) is None,
{
    reveal_strlit("bytes=");
    let r = text::trimmed(range, Trim::Space);
    if range.len() > 0 && range[0] != 'b' && !text::is_space(range[0]) && text::has_prefix(
        r,
        "bytes="@,
    ) {
        assert(r.take(6)[0] == 'b');
        assert(r[0] == 'b');
        lemma_trim_keeps_start(range);
    }
}

proof fn lemma_trim_keeps_start(s: Seq<char>)
    requires
        text::trim_right(s, Trim::Space).len() > 0,
    ensures
        text::trim_right(s, Trim::Space)[0] == s[0],
    decreases s.len(),
{
    if s.len() > 0 && text::is_space(s.last()) {
        lemma_trim_keeps_start(s.drop_last());
    }
}

/// A range is answered with its bytes, where they stand and how many there are in all; a
/// range that is none is answered 416, with how many there are.
pub proof fn law_range_says_where_it_lies(
    data: Seq<u8>,
    content_type: Seq<char>,
    tag: Seq<char>,
    h: Seq<(Seq<char>, Seq<char>)>,
    zipped: Option<Seq<u8>>,
)
    requires
        headers::header(h, "range"@).len() > 0,
        headers::header(h, "if-none-match"@).len() == 0,
    ensures
        ({
            let r = served_with(data, content_type, tag, h, zipped);
            match byte_range(headers::header(h, "range"@), data.len() as int) {
                Some((a, b)) => {
                    &&& r.status == 206
                    &&& r.body.len() == b - a + 1
                    &&& forall|i: int| 0 <= i <= b - a ==> #[trigger] r.body[i] == data[a + i]
                    &&& r.extra == seq![
                        ("ETag"@, tag),
                        ("Accept-Ranges"@, "bytes"@),
                        (
                            "Content-Range"@,
                            "bytes "@ + numeral::decimal(a as nat) + "-"@ + numeral::decimal(
                                b as nat,
                            ) + "/"@ + numeral::decimal(data.len()),
                        ),
                    ]
                },
                None => {
                    &&& r.status == 416
                    &&& r.body.len() == 0
                    &&& r.extra == seq![
                        ("Content-Range"@, "bytes */"@ + numeral::decimal(data.len())),
                    ]
                },
            }
        }),
{
    law_range_lies_within(headers::header(h, "range"@), data.len() as int);
    let r = served_with(data, content_type, tag, h, zipped);
    match byte_range(headers::header(h, "range"@), data.len() as int) {
        Some((a, b)) => {
            assert(r.extra =~= seq![
                ("ETag"@, tag),
                ("Accept-Ranges"@, "bytes"@),
                (
                    "Content-Range"@,
                    "bytes "@ + numeral::decimal(a as nat) + "-"@ + numeral::decimal(b as nat)
                        + "/"@ + numeral::decimal(data.len()),
                ),
            ]);
        },
        None => {},
    }
}

/// The path below a mount names the file, without slashes before it and with its escapes
/// undone; the mount itself, with slashes or without, names the index.
pub proof fn law_path_names_the_file(slashes: Seq<char>, name: Seq<char>)
    requires
        forall|i: int| 0 <= i < slashes.len() ==> #[trigger] slashes[i] == '/',
        forall|i: int| 0 <= i < name.len() ==> #[trigger] name[i] != '%',
    ensures
        name.len() > 0 && name[0] != '/' ==> wanted(slashes + name) == name,
        wanted(slashes) == seq!['i', 'n', 'd', 'e', 'x', '.', 'h', 't', 'm', 'l'],
{
    reveal_strlit("index.html");
    assert("index.html"@ =~= seq!['i', 'n', 'd', 'e', 'x', '.', 'h', 't', 'm', 'l']);
    let all = slashes + name;
    assert forall|i: int| 0 <= i < all.len() implies #[trigger] all[i] != '%' by {
        if i < slashes.len() {
            assert(all[i] == slashes[i]);
        } else {
            assert(all[i] == name[i - slashes.len()]);
        }
    }
    url::law_plain_text_is_kept(all);
    url::law_plain_text_is_kept(slashes);
    text::lemma_trim_left(slashes, Trim::Slash, slashes.len() as int);
    assert(slashes.skip(slashes.len() as int) =~= Seq::<char>::empty());
    if name.len() > 0 && name[0] != '/' {
        assert forall|i: int| 0 <= i < slashes.len() implies Trim::Slash.holds(all[i]) by {
            assert(all[i] == slashes[i]);
        }
        assert(all[slashes.len() as int] == name[0]);
        text::lemma_trim_left(all, Trim::Slash, slashes.len() as int);
        assert(all.skip(slashes.len() as int) =~= name);
    }
}

/// A file within the directory of the mount is served; a directory leads to its index, once;
/// what is elsewhere, or is neither, is not served.
pub proof fn law_what_is_served(base: Seq<Seq<u8>>, more: Seq<Seq<u8>>, f: Found, elsewhere: Found)
    requires
        components(f.real@) == base + more,
        components(elsewhere.real@).len() < base.len() || exists|i: int|
            0 <= i < base.len() && components(elsewhere.real@)[i] != #[trigger] base[i],
    ensures
        f.is_file && !f.is_dir ==> lookup_decision(base, Lookup::Named, Some(f)) is Serve,
        f.is_dir ==> lookup_decision(base, Lookup::Named, Some(f)) is Index,
        f.is_file ==> lookup_decision(base, Lookup::Index, Some(f)) is Serve,
        !f.is_file ==> lookup_decision(base, Lookup::Index, Some(f)) is Fail,
        !f.is_file && !f.is_dir ==> lookup_decision(base, Lookup::Named, Some(f)) is Fail,
        lookup_decision(base, Lookup::Named, None) is Fail,
        lookup_decision(base, Lookup::Index, None) is Fail,
        lookup_decision(base, Lookup::Named, Some(elsewhere)) is Fail,
        lookup_decision(base, Lookup::Index, Some(elsewhere)) is Fail,
{
    assert((base + more).take(base.len() as int) =~= base);
    let t = components(elsewhere.real@);
    if base.len() <= t.len() {
        let i = choose|i: int| 0 <= i < base.len() && t[i] != #[trigger] base[i];
        assert(t.take(base.len() as int)[i] == t[i]);
    }
}

/// The components of a path are viewed one for one.
pub proof fn law_components_are_viewed(path: Seq<Vec<u8>>)
    ensures
        components(path).len() == path.len(),
        forall|i: int| 0 <= i < path.len() ==> #[trigger] components(path)[i] == path[i]@,
{
}

/// The mount that is tried next is the first one from there on below whose prefix the path
/// lies, and the file is looked for under what the path names below it.
pub proof fn law_mounts_are_tried_in_order(mounts: Seq<host::Mount>, path: Seq<char>, i: int)
    requires
        0 <= i <= mounts.len(),
    ensures
        match try_from(mounts, path, i) {
            MountStepView::Try { mount, name } => {
                &&& i <= mount < mounts.len()
                &&& host::below(mounts[mount].prefix@, path) matches Some(rel)
                &&& name == wanted(rel)
                &&& forall|j: int|
                    i <= j < mount ==> host::below(#[trigger] mounts[j].prefix@, path) is None
            },
            MountStepView::Fail => forall|j: int|
                i <= j < mounts.len() ==> host::below(#[trigger] mounts[j].prefix@, path) is None,
            MountStepView::Respond(_) => false,
        },
    decreases mounts.len() - i,
{
    if i < mounts.len() && host::below(mounts[i].prefix@, path) is None {
        law_mounts_are_tried_in_order(mounts, path, i + 1);
    }
}

/// A file that was read is answered with its data, under the type of its extension and the tag
/// of its size and change.
pub proof fn law_opened_file_is_served(o: OpenedView, h: Seq<(Seq<char>, Seq<char>)>)
    ensures
        opened_response(o, h) == served(
            o.data,
            media::file_type(o.ext, o.guessed),
            entity_tag(
                o.data.len(),
                if o.mtime is Some {
                    o.mtime->0 as nat
                } else {
                    0
                },
            ),
            h,
        ),
{
}

/// What a response with a file holds is what its fields hold.
pub proof fn law_file_response_is_viewed(r: StaticResp, o: Opened)
    ensures
        r@.status == r.status,
        r@.body == r.body@,
        r@.content_type == r.content_type@,
        r@.extra == headers::pairs(r.extra@),
        o@.data == o.data@,
        o@.ext == o.ext@,
        o@.mtime == o.mtime,
        o.guessed matches Some(g) ==> o@.guessed == Some(g@),
        o.guessed is None ==> o@.guessed is None,
{
}

/// A name that begins with a character of ASCII and a colon is that of a drive, and no other name
/// is.
pub proof fn law_names_of_drives(c: char, rest: Seq<char>, name: Seq<char>)
    ensures
        (c as u32) < 128 ==> names_drive(seq![c, ':'] + rest),
        names_drive(name) ==> name.len() >= 2 && name[1] == ':' && (name[0] as u32) < 128,
{
    let s = seq![c, ':'] + rest;
    assert(s[0] == c && s[1] == ':');
}

} // verus!
