//! Reading the body of a request, in chunks or of a declared length.
//!
//! The reader says what it wants next from the connection and takes what came. It counts
//! the bytes that really come, whatever the headers declare. A body beyond a threshold goes
//! to a file: the embedding program writes it and says whether the file could be made.

use vstd::prelude::*;
use vstd::slice::slice_subrange;

use crate::headers;
use crate::numeral;
use crate::outside;
use crate::text;
use crate::text::Trim;

verus! {

/// Beyond this size a body goes to a file.
pub const MEM_SPILL: usize = 1_048_576;

/// The most that is asked of the connection at once.
pub const BLOCK: usize = 65_536;

/// Where the reading of a body stands.
#[derive(Clone, Copy)]
pub enum Stage {
    /// The size of a chunk comes next.
    Size,
    /// The data of a chunk come next, so many bytes.
    Data(usize),
    /// The line end behind a chunk comes next.
    DataEnd,
    /// The line behind the last chunk comes next.
    Trailer,
    /// A body of a declared length, of which so many bytes are left.
    Plain(usize),
    /// The body is complete, or no more of it comes.
    Ended,
    /// The body is larger than it may be.
    TooLarge,
}

/// What is wanted next from the connection.
#[derive(Clone, Copy)]
pub enum Want {
    /// A line.
    Line,
    /// So many bytes.
    Exactly(usize),
    /// Some bytes, but no more than so many.
    UpTo(usize),
    Nothing,
}

/// What is to be done with data that were taken.
pub enum Feed {
    Nothing,
    /// Make a file and write what is in memory to it, then say whether that was possible.
    TrySpill,
    /// Write these bytes at the end of the file.
    Append(Vec<u8>),
}

/// What became of a body.
pub enum BodyRead {
    Bytes(Vec<u8>),
    /// It is in the file.
    File,
    TooLarge,
}

/// A body that is being read.
pub struct BodyReader {
    stage: Stage,
    total: usize,
    buf: Vec<u8>,
    spilled: bool,
    max_body: Option<i64>,
    spill_at: usize,
    /// The bytes that went to the file.
    filed: Ghost<Seq<u8>>,
}

/// The mathematical content of a reader: its stage, the number of bytes that came, what is
/// in memory, whether there is a file, and what is in it.
pub struct BodyState {
    pub stage: Stage,
    pub total: int,
    pub buf: Seq<u8>,
    pub spilled: bool,
    pub max_body: Option<i64>,
    pub spill_at: int,
    pub filed: Seq<u8>,
}

impl View for BodyReader {
    type V = BodyState;

    closed spec fn view(&self) -> BodyState {
        BodyState {
            stage: self.stage,
            total: self.total as int,
            buf: self.buf@,
            spilled: self.spilled,
            max_body: self.max_body,
            spill_at: self.spill_at as int,
            filed: self.filed@,
        }
    }
}

impl BodyState {
    /// The bytes that were taken, in the order in which they came.
    pub open spec fn content(self) -> Seq<u8> {
        self.filed + self.buf
    }

    /// Where the reading stands and what was taken.
    pub open spec fn progress(self) -> Progress {
        Progress { stage: self.stage, content: self.content() }
    }

    /// The size of what was taken is counted, and a body with a file is not in memory. A body
    /// that is not too large is within its limit.
    pub open spec fn wf(self) -> bool {
        &&& 0 <= self.total <= usize::MAX
        &&& self.spilled ==> self.buf.len() == 0
        &&& !self.spilled ==> self.filed.len() == 0
        &&& !(self.stage is TooLarge) ==> {
            &&& self.total == self.content().len()
            &&& self.total > 0 ==> !over(self.total, self.max_body)
        }
    }
}

/// Where the reading of a body stands, and the bytes that were taken so far, be they in memory
/// or in the file.
#[verifier::ext_equal]
pub struct Progress {
    pub stage: Stage,
    pub content: Seq<u8>,
}

/// What came from the connection: a line or data, or that there is no more.
pub enum Arrival {
    Line(Option<Seq<char>>),
    Data(Option<Seq<u8>>),
}

/// A number of bytes is over the limit.
pub open spec fn over(total: int, max_body: Option<i64>) -> bool {
    match max_body {
        Some(mb) => (total as usize) as i64 > mb,
        None => false,
    }
}

/// The size beyond which a body goes to a file: never more than the limit.
pub open spec fn threshold(max_body: Option<i64>) -> int {
    match max_body {
        None => MEM_SPILL as int,
        Some(mb) => if mb < 0 {
            0
        } else if mb > MEM_SPILL {
            MEM_SPILL as int
        } else {
            mb as int
        },
    }
}

fn threshold_of(max_body: Option<i64>) -> (r: usize)
    ensures
        r == threshold(max_body),
{
    match max_body {
        None => MEM_SPILL,
        Some(mb) => if mb < 0 {
            0
        } else if mb > MEM_SPILL as i64 {
            MEM_SPILL
        } else {
            mb as usize
        },
    }
}

/// The body comes in chunks.
pub open spec fn is_chunked(h: Seq<(Seq<char>, Seq<char>)>) -> bool {
    text::contains_text(
        outside::lowercase(headers::header(h, "transfer-encoding"@)),
        "chunked"@,
    )
}

/// The declared length of a body, zero where it is none.
pub open spec fn declared_length(h: Seq<(Seq<char>, Seq<char>)>) -> int {
    match numeral::usize_of(
        text::trimmed(headers::header(h, "content-length"@), Trim::Space),
        10,
    ) {
        Some(n) => n as int,
        None => 0,
    }
}

/// The stage at which a body of the declared length stands with so many bytes left.
pub open spec fn plain_stage(left: int) -> Stage {
    if left == 0 {
        Stage::Ended
    } else {
        Stage::Plain(left as usize)
    }
}

/// What a line says about the size of a chunk: the hexadecimal number before any extension.
pub open spec fn size_text(line: Seq<char>) -> Seq<char> {
    text::trimmed(text::before(text::trimmed(line, Trim::Space), ';'), Trim::Space)
}

/// The stage after a line, or after the end of the input.
pub open spec fn stage_after_line(stage: Stage, line: Option<Seq<char>>) -> Stage {
    match stage {
        Stage::Size => match line {
            None => Stage::Ended,
            Some(l) => if size_text(l).len() == 0 {
                Stage::Size
            } else {
                match numeral::usize_of(size_text(l), 16) {
                    None => Stage::Ended,
                    Some(n) => if n == 0 {
                        Stage::Trailer
                    } else {
                        Stage::Data(n)
                    },
                }
            },
        },
        Stage::DataEnd => Stage::Size,
        Stage::Trailer => Stage::Ended,
        _ => stage,
    }
}

/// The stage after data that are within the limit.
pub open spec fn stage_after_data(stage: Stage, n: int) -> Stage {
    match stage {
        Stage::Data(_) => Stage::DataEnd,
        Stage::Plain(left) => plain_stage(left - n),
        _ => stage,
    }
}

/// The stage at which the body of a request with these headers begins.
pub open spec fn first_stage(h: Seq<(Seq<char>, Seq<char>)>) -> Stage {
    if is_chunked(h) {
        Stage::Size
    } else {
        plain_stage(declared_length(h))
    }
}

/// The progress after what came. Data that take the body over its limit end the reading.
pub open spec fn arrived(p: Progress, max_body: Option<i64>, a: Arrival) -> Progress {
    match a {
        Arrival::Line(line) => Progress { stage: stage_after_line(p.stage, line), ..p },
        Arrival::Data(None) => Progress { stage: Stage::Ended, ..p },
        Arrival::Data(Some(d)) => if over((p.content.len() + d.len()) as int, max_body) {
            Progress { stage: Stage::TooLarge, ..p }
        } else {
            Progress { stage: stage_after_data(p.stage, d.len() as int), content: p.content + d }
        },
    }
}

/// The progress after all that came.
pub open spec fn read_all(p: Progress, max_body: Option<i64>, arrivals: Seq<Arrival>) -> Progress
    decreases arrivals.len(),
{
    if arrivals.len() == 0 {
        p
    } else {
        arrived(read_all(p, max_body, arrivals.drop_last()), max_body, arrivals.last())
    }
}

/// The data are as many as were wanted.
pub open spec fn fits_want(stage: Stage, n: int) -> bool {
    match stage {
        Stage::Data(want) => n == want,
        Stage::Plain(left) => 1 <= n <= left && n <= BLOCK,
        _ => false,
    }
}

/// What is wanted at a stage.
pub open spec fn want_at(stage: Stage) -> Want {
    match stage {
        Stage::Size | Stage::DataEnd | Stage::Trailer => Want::Line,
        Stage::Data(n) => Want::Exactly(n),
        Stage::Plain(left) => Want::UpTo(
            if left < BLOCK {
                left
            } else {
                BLOCK
            },
        ),
        Stage::Ended | Stage::TooLarge => Want::Nothing,
    }
}

fn has_chunks(request: &Vec<(String, String)>) -> (r: bool)
    ensures
        r == is_chunked(headers::pairs(request@)),
{
    let coding = headers::header_value(request, "transfer-encoding");
    let lower = outside::to_lowercase(coding.as_str());
    let cs = text::chars_of(lower.as_str());
    text::contains(cs.as_slice(), text::chars_of("chunked").as_slice())
}

fn length_of(request: &Vec<(String, String)>) -> (r: usize)
    ensures
        r == declared_length(headers::pairs(request@)),
{
    let declared = headers::header_value(request, "content-length");
    let cs = text::chars_of(declared.as_str());
    match numeral::parse_usize(text::trim(cs.as_slice(), Trim::Space), 10) {
        Some(n) => n,
        None => 0,
    }
}

fn size_line(line: &str) -> (r: Stage)
    ensures
        r == stage_after_line(Stage::Size, Some(line@)),
{
    let cs = text::chars_of(line);
    let t = text::trim(cs.as_slice(), Trim::Space);
    let k = text::find_char(t, ';');
    let hex = text::trim(slice_subrange(t, 0, k), Trim::Space);
    assert(hex@ == size_text(line@));
    if hex.len() == 0 {
        return Stage::Size;
    }
    match numeral::parse_usize(hex, 16) {
        None => Stage::Ended,
        Some(n) => if n == 0 {
            Stage::Trailer
        } else {
            Stage::Data(n)
        },
    }
}

impl BodyReader {
    /// Begins to read the body of a request with these headers.
    pub fn new(request: &Vec<(String, String)>, max_body: Option<i64>) -> (r: Self)
        ensures
            r@.wf(),
            r@.total == 0,
            r@.content() == Seq::<u8>::empty(),
            !r@.spilled,
            r@.max_body == max_body,
            r@.spill_at == threshold(max_body),
            r@.stage == first_stage(headers::pairs(request@)),
    {
        let stage = if has_chunks(request) {
            Stage::Size
        } else {
            let n = length_of(request);
            if n == 0 {
                Stage::Ended
            } else {
                Stage::Plain(n)
            }
        };
        let r = BodyReader {
            stage,
            total: 0,
            buf: Vec::new(),
            spilled: false,
            max_body,
            spill_at: threshold_of(max_body),
            filed: Ghost(Seq::empty()),
        };
        assert(r@.content() =~= Seq::<u8>::empty());
        r
    }

    /// What is wanted next.
    pub fn wants(&self) -> (r: Want)
        ensures
            r == want_at(self@.stage),
            r == match self@.stage {
                Stage::Size | Stage::DataEnd | Stage::Trailer => Want::Line,
                Stage::Data(n) => Want::Exactly(n),
                Stage::Plain(left) => Want::UpTo(
                    if left < BLOCK {
                        left
                    } else {
                        BLOCK
                    },
                ),
                Stage::Ended | Stage::TooLarge => Want::Nothing,
            },
    {
        match self.stage {
            Stage::Size => Want::Line,
            Stage::DataEnd => Want::Line,
            Stage::Trailer => Want::Line,
            Stage::Data(n) => Want::Exactly(n),
            Stage::Plain(left) => Want::UpTo(
                if left < BLOCK {
                    left
                } else {
                    BLOCK
                },
            ),
            Stage::Ended => Want::Nothing,
            Stage::TooLarge => Want::Nothing,
        }
    }

    /// Takes a line, or that there is none.
    pub fn take_line(&mut self, line: Option<&str>)
        requires
            old(self)@.wf(),
            old(self)@.stage is Size || old(self)@.stage is DataEnd || old(self)@.stage is Trailer,
        ensures
            final(self)@.wf(),
            final(self)@ == (BodyState {
                stage: stage_after_line(
                    old(self)@.stage,
                    match line {
                        Some(l) => Some(l@),
                        None => None,
                    },
                ),
                ..old(self)@
            }),
            final(self)@.progress() == arrived(
                old(self)@.progress(),
                old(self)@.max_body,
                Arrival::Line(
                    match line {
                        Some(l) => Some(l@),
                        None => None,
                    },
                ),
            ),
    {
        let next = match self.stage {
            Stage::Size => match line {
                None => Stage::Ended,
                Some(l) => size_line(l),
            },
            Stage::DataEnd => Stage::Size,
            Stage::Trailer => Stage::Ended,
            other => other,
        };
        self.stage = next;
        assert(self@.content() =~= old(self)@.content());
    }

    /// Takes data, or that there are none. Data that take the body over its limit end the
    /// reading; other data are kept in order, in memory or for the file.
    pub fn take_data(&mut self, data: Option<Vec<u8>>) -> (r: Feed)
        requires
            old(self)@.wf(),
            old(self)@.stage is Data || old(self)@.stage is Plain,
            data matches Some(d) ==> fits_want(old(self)@.stage, d@.len() as int)
                && old(self)@.total + d@.len() <= usize::MAX,
        ensures
            final(self)@.wf(),
            final(self)@.max_body == old(self)@.max_body,
            final(self)@.spill_at == old(self)@.spill_at,
            final(self)@.spilled == old(self)@.spilled,
            match data {
                None => {
                    &&& r is Nothing
                    &&& final(self)@ == (BodyState { stage: Stage::Ended, ..old(self)@ })
                },
                Some(d) => if over(old(self)@.total + d@.len(), old(self)@.max_body) {
                    &&& r is Nothing
                    &&& final(self)@.stage is TooLarge
                    &&& final(self)@.content() == old(self)@.content()
                } else {
                    &&& final(self)@.stage == stage_after_data(
                        old(self)@.stage,
                        d@.len() as int,
                    )
                    &&& final(self)@.total == old(self)@.total + d@.len()
                    &&& final(self)@.content() == old(self)@.content() + d@
                    &&& if old(self)@.spilled {
                        r matches Feed::Append(more) && more@ == d@
                    } else {
                        &&& r is TrySpill <==> final(self)@.buf.len() > final(self)@.spill_at
                        &&& !(r is TrySpill) ==> r is Nothing
                    }
                },
            },
            final(self)@.progress() == arrived(
                old(self)@.progress(),
                old(self)@.max_body,
                Arrival::Data(
                    match data {
                        Some(d) => Some(d@),
                        None => None,
                    },
                ),
            ),
    {
        let ghost before = self@.content();
        match data {
            None => {
                self.stage = Stage::Ended;
                assert(self@.content() =~= before);
                Feed::Nothing
            },
            Some(d) => {
                let n: usize = d.len();
                let total: usize = self.total + n;
                let too_large = match self.max_body {
                    Some(mb) => {
                        #[verifier::truncate]
                        let signed = total as i64;
                        signed > mb
                    },
                    None => false,
                };
                self.total = total;
                if too_large {
                    self.stage = Stage::TooLarge;
                    assert(self@.content() =~= before);
                    return Feed::Nothing;
                }
                self.stage = match self.stage {
                    Stage::Data(_) => Stage::DataEnd,
                    Stage::Plain(left) => if left == n {
                        Stage::Ended
                    } else {
                        Stage::Plain(left - n)
                    },
                    other => other,
                };
                if self.spilled {
                    proof {
                        let more = d@;
                        self.filed@ = self.filed@ + more;
                        assert(self@.content() =~= before + d@);
                    }
                    return Feed::Append(d);
                }
                self.buf.extend_from_slice(d.as_slice());
                assert(self@.content() =~= before + d@);
                if self.buf.len() > self.spill_at {
                    Feed::TrySpill
                } else {
                    Feed::Nothing
                }
            },
        }
    }

    /// The bytes in memory.
    pub fn buffered(&self) -> (r: &Vec<u8>)
        ensures
            r@ == self@.buf,
    {
        &self.buf
    }

    /// Takes whether the file could be made: then the bytes are there, else they stay in
    /// memory.
    pub fn spill(&mut self, created: bool)
        requires
            old(self)@.wf(),
            !old(self)@.spilled,
        ensures
            final(self)@.wf(),
            final(self)@.content() == old(self)@.content(),
            final(self)@.stage == old(self)@.stage,
            final(self)@.total == old(self)@.total,
            final(self)@.max_body == old(self)@.max_body,
            final(self)@.spill_at == old(self)@.spill_at,
            final(self)@.spilled == created,
            created ==> final(self)@.buf.len() == 0,
    {
        let ghost before = self@.content();
        if created {
            proof {
                self.filed@ = self.filed@ + self.buf@;
            }
            self.buf.clear();
            self.spilled = true;
            assert(self@.content() =~= before);
        }
    }

    /// What became of the body.
    pub fn finish(self) -> (r: BodyRead)
        requires
            self@.wf(),
        ensures
            if self@.stage is TooLarge {
                r is TooLarge
            } else if self@.spilled {
                r is File && self@.filed == self@.content()
            } else {
                r matches BodyRead::Bytes(b) && b@ == self@.content()
            },
    {
        let large = match self.stage {
            Stage::TooLarge => true,
            _ => false,
        };
        if large {
            return BodyRead::TooLarge;
        }
        if self.spilled {
            assert(self@.filed =~= self@.content());
            BodyRead::File
        } else {
            assert(self@.buf =~= self@.content());
            BodyRead::Bytes(self.buf)
        }
    }
}

/// The name of the file for a body: the process and a number that is counted up.
pub open spec fn spill_file(pid: u32, n: u64) -> Seq<char> {
    "syn_body_"@ + numeral::decimal(pid as nat) + "_"@ + numeral::decimal(n as nat)
}

/// The name of the file for a body.
pub fn spill_name(pid: u32, n: u64) -> (r: String)
    ensures
        r@ == spill_file(pid, n),
{
    let mut r = "syn_body_".to_owned();
    r.append(numeral::u64_to_string(pid as u64).as_str());
    r.append("_");
    r.append(numeral::u64_to_string(n).as_str());
    r
}

// ---------------------------------------------------------------------------
// Laws
// ---------------------------------------------------------------------------

/// A body that is not refused is no larger than the limit, whatever the headers declare.
pub proof fn law_accepted_body_is_within_the_limit(s: BodyState, mb: i64)
    requires
        s.wf(),
        s.max_body == Some(mb),
        !(s.stage is TooLarge),
        s.total <= i64::MAX,
    ensures
        s.content().len() > 0 ==> s.content().len() <= mb,
{
}

/// The threshold for going to a file is never above the limit, and never above `MEM_SPILL`.
pub proof fn law_threshold_is_within_the_limit(max_body: Option<i64>)
    ensures
        0 <= threshold(max_body) <= MEM_SPILL,
        max_body matches Some(mb) ==> mb >= 0 ==> threshold(max_body) <= mb,
{
}

/// A body of a declared length ends after exactly that many bytes, where they come.
pub proof fn law_plain_body_ends_at_its_length(left: int, n: int)
    requires
        0 < n <= left <= usize::MAX,
    ensures
        stage_after_data(Stage::Plain(left as usize), n) is Ended <==> n == left,
        n < left ==> stage_after_data(Stage::Plain(left as usize), n) == Stage::Plain(
            (left - n) as usize,
        ),
{
}

/// A chunk whose size is written in hexadecimal is read as that many bytes, after which the
/// next size is read; a size of zero ends the body.
pub proof fn law_chunks_are_read_in_turn(n: usize, line: Seq<char>, behind: Option<Seq<char>>)
    requires
        size_text(line) == numeral::numeral(n as nat, 16),
    ensures
        n > 0 ==> {
            &&& stage_after_line(Stage::Size, Some(line)) == Stage::Data(n)
            &&& fits_want(Stage::Data(n), n as int)
            &&& stage_after_data(Stage::Data(n), n as int) == Stage::DataEnd
            &&& stage_after_line(Stage::DataEnd, behind) == Stage::Size
        },
        n == 0 ==> {
            &&& stage_after_line(Stage::Size, Some(line)) == Stage::Trailer
            &&& stage_after_line(Stage::Trailer, behind) == Stage::Ended
        },
{
    numeral::law_numerals_read_back(n as nat, 16);
}

/// A size that stands alone on its line is the size that is read.
pub proof fn law_bare_size_line(n: usize)
    ensures
        size_text(numeral::numeral(n as nat, 16) + seq!['\r', '\n']) == numeral::numeral(n as nat, 16),
{
    let d = numeral::numeral(n as nat, 16);
    let line = d + seq!['\r', '\n'];
    numeral::law_numerals_read_back(n as nat, 16);
    assert(d.len() > 0);
    assert(numeral::digit_value(d[0], 16) is Some);
    assert(numeral::digit_value(d.last(), 16) is Some);
    assert(line[0] == d[0]);
    assert(line.drop_last() =~= d.push('\r'));
    assert(d.push('\r').drop_last() =~= d);
    assert(text::trim_right(d, Trim::Space) == d);
    assert(text::trim_right(d.push('\r'), Trim::Space) == d);
    assert(text::trimmed(line, Trim::Space) == d);
    assert forall|i: int| 0 <= i < d.len() implies d[i] != ';' by {
        assert(numeral::digit_value(d[i], 16) is Some);
    }
    text::lemma_first_of_unique(d, ';', d.len() as int);
    assert(text::before(d, ';') =~= d);
    text::lemma_trimmed_same(d, Trim::Space);
}

/// The declared length of a body is the number that the header was written for.
pub proof fn law_declared_length_is_read(n: usize, h: Seq<(Seq<char>, Seq<char>)>)
    requires
        headers::header(h, "content-length"@) == numeral::decimal(n as nat),
    ensures
        declared_length(h) == n,
{
    let d = numeral::decimal(n as nat);
    numeral::law_numerals_read_back(n as nat, 10);
    assert(numeral::digit_value(d[0], 10) is Some);
    assert(numeral::digit_value(d.last(), 10) is Some);
    text::lemma_trimmed_same(d, Trim::Space);
}

/// What came is what was wanted.
pub open spec fn is_expected(stage: Stage, a: Arrival) -> bool {
    match a {
        Arrival::Line(_) => stage is Size || stage is DataEnd || stage is Trailer,
        Arrival::Data(None) => stage is Data || stage is Plain,
        Arrival::Data(Some(d)) => fits_want(stage, d.len() as int),
    }
}

/// All that came was wanted when it came.
pub open spec fn is_run(p: Progress, max_body: Option<i64>, arrivals: Seq<Arrival>) -> bool
    decreases arrivals.len(),
{
    arrivals.len() > 0 ==> is_run(p, max_body, arrivals.drop_last()) && is_expected(
        read_all(p, max_body, arrivals.drop_last()).stage,
        arrivals.last(),
    )
}

/// The data that came, one behind another.
pub open spec fn bytes_in(arrivals: Seq<Arrival>) -> Seq<u8>
    decreases arrivals.len(),
{
    if arrivals.len() == 0 {
        seq![]
    } else {
        bytes_in(arrivals.drop_last()) + match arrivals.last() {
            Arrival::Data(Some(d)) => d,
            _ => seq![],
        }
    }
}

/// The beginning of the body of a request with these headers.
pub open spec fn at_start(h: Seq<(Seq<char>, Seq<char>)>) -> Progress {
    Progress { stage: first_stage(h), content: seq![] }
}

proof fn lemma_stage_kept(stage: Stage, line: Option<Seq<char>>)
    requires
        !(stage is TooLarge),
    ensures
        !(stage_after_line(stage, line) is TooLarge),
        (stage matches Stage::Data(n) ==> n > 0) ==> (stage_after_line(stage, line) matches Stage::Data(n)
            ==> n > 0),
{
}

/// A body is found too large exactly where the bytes that came are more than the limit, whatever
/// the headers declare; any other body is exactly the bytes that came, in order.
pub proof fn law_body_is_what_came(
    h: Seq<(Seq<char>, Seq<char>)>,
    max_body: Option<i64>,
    arrivals: Seq<Arrival>,
)
    requires
        is_run(at_start(h), max_body, arrivals),
        bytes_in(arrivals).len() <= i64::MAX,
        bytes_in(arrivals).len() <= usize::MAX,
    ensures
        ({
            let end = read_all(at_start(h), max_body, arrivals);
            let bytes = bytes_in(arrivals);
            &&& end.stage is TooLarge <==> (max_body matches Some(mb) && bytes.len() > 0
                && bytes.len() > mb)
            &&& !(end.stage is TooLarge) ==> end.content == bytes
            &&& end.stage matches Stage::Data(n) ==> n > 0
        }),
    decreases arrivals.len(),
{
    if arrivals.len() > 0 {
        let before = arrivals.drop_last();
        law_body_is_what_came(h, max_body, before);
        let p = read_all(at_start(h), max_body, before);
        let bytes = bytes_in(arrivals);
        match arrivals.last() {
            Arrival::Line(line) => {
                assert(bytes =~= bytes_in(before));
                lemma_stage_kept(p.stage, line);
            },
            Arrival::Data(None) => {
                assert(bytes =~= bytes_in(before));
            },
            Arrival::Data(Some(d)) => {
                assert(p.content.len() + d.len() == bytes.len());
                assert((bytes.len() as usize) as i64 == bytes.len());
            },
        }
    }
}

/// What comes for chunks that are written one after another: for each its size, its data and
/// a line end.
pub open spec fn chunks_coming(chunks: Seq<Seq<u8>>) -> Seq<Arrival>
    decreases chunks.len(),
{
    if chunks.len() == 0 {
        seq![]
    } else {
        let c = chunks.last();
        chunks_coming(chunks.drop_last()).push(
            Arrival::Line(Some(numeral::numeral(c.len(), 16) + seq!['\r', '\n'])),
        ).push(Arrival::Data(Some(c))).push(Arrival::Line(Some(seq!['\r', '\n'])))
    }
}

/// What comes for a whole body in chunks: the chunks, a size of zero and a line end.
pub open spec fn chunked_coming(chunks: Seq<Seq<u8>>) -> Seq<Arrival> {
    chunks_coming(chunks).push(Arrival::Line(Some(seq!['0', '\r', '\n']))).push(
        Arrival::Line(Some(seq!['\r', '\n'])),
    )
}

/// Chunks laid end to end.
pub open spec fn chunks_laid(chunks: Seq<Seq<u8>>) -> Seq<u8>
    decreases chunks.len(),
{
    if chunks.len() == 0 {
        seq![]
    } else {
        chunks_laid(chunks.drop_last()) + chunks.last()
    }
}

proof fn lemma_chunks_read(chunks: Seq<Seq<u8>>, max_body: Option<i64>)
    requires
        forall|i: int| 0 <= i < chunks.len() ==> (#[trigger] chunks[i]).len() > 0,
        chunks_laid(chunks).len() <= i64::MAX,
        chunks_laid(chunks).len() <= usize::MAX,
        max_body matches Some(mb) ==> chunks_laid(chunks).len() <= mb,
    ensures
        ({
            let p = Progress { stage: Stage::Size, content: seq![] };
            read_all(p, max_body, chunks_coming(chunks)) == (Progress {
                stage: Stage::Size,
                content: chunks_laid(chunks),
            }) && is_run(p, max_body, chunks_coming(chunks))
        }),
    decreases chunks.len(),
{
    let p = Progress { stage: Stage::Size, content: seq![] };
    if chunks.len() > 0 {
        let rest = chunks.drop_last();
        let c = chunks.last();
        let before = chunks_coming(rest);
        let line = numeral::numeral(c.len(), 16) + seq!['\r', '\n'];
        let one = before.push(Arrival::Line(Some(line)));
        let two = one.push(Arrival::Data(Some(c)));
        let three = two.push(Arrival::Line(Some(seq!['\r', '\n'])));
        assert forall|i: int| 0 <= i < rest.len() implies (#[trigger] rest[i]).len() > 0 by {
            assert(rest[i] == chunks[i]);
        }
        lemma_chunks_read(rest, max_body);
        let n = c.len() as usize;
        law_bare_size_line(n);
        law_chunks_are_read_in_turn(n, line, Some(seq!['\r', '\n']));
        assert(one.drop_last() =~= before);
        assert(two.drop_last() =~= one);
        assert(three.drop_last() =~= two);
        let total = chunks_laid(chunks).len();
        assert((total as usize) as i64 == total);
        assert(read_all(p, max_body, one) == (Progress {
            stage: Stage::Data(n),
            content: chunks_laid(rest),
        }));
        assert(read_all(p, max_body, two) == (Progress {
            stage: Stage::DataEnd,
            content: chunks_laid(chunks),
        }));
        assert(is_run(p, max_body, one));
        assert(is_run(p, max_body, two));
        assert(chunks_coming(chunks) == three);
    }
}

/// A body that was written in chunks and is within the limit is read back as the chunks laid
/// end to end, and the reading ends with it.
pub proof fn law_chunked_body_is_read_back(chunks: Seq<Seq<u8>>, max_body: Option<i64>)
    requires
        forall|i: int| 0 <= i < chunks.len() ==> (#[trigger] chunks[i]).len() > 0,
        chunks_laid(chunks).len() <= i64::MAX,
        chunks_laid(chunks).len() <= usize::MAX,
        max_body matches Some(mb) ==> chunks_laid(chunks).len() <= mb,
    ensures
        ({
            let p = Progress { stage: Stage::Size, content: seq![] };
            read_all(p, max_body, chunked_coming(chunks)) == (Progress {
                stage: Stage::Ended,
                content: chunks_laid(chunks),
            }) && is_run(p, max_body, chunked_coming(chunks))
        }),
{
    let p = Progress { stage: Stage::Size, content: seq![] };
    lemma_chunks_read(chunks, max_body);
    let before = chunks_coming(chunks);
    let line = seq!['0', '\r', '\n'];
    let one = before.push(Arrival::Line(Some(line)));
    let two = one.push(Arrival::Line(Some(seq!['\r', '\n'])));
    law_bare_size_line(0);
    assert(numeral::numeral(0, 16) =~= seq!['0']);
    assert(numeral::numeral(0, 16) + seq!['\r', '\n'] =~= line);
    law_chunks_are_read_in_turn(0, line, Some(seq!['\r', '\n']));
    assert(one.drop_last() =~= before);
    assert(two.drop_last() =~= one);
    assert(read_all(p, max_body, one) == (Progress {
        stage: Stage::Trailer,
        content: chunks_laid(chunks),
    }));
    assert(is_run(p, max_body, one));
    assert(chunked_coming(chunks) == two);
    assert(is_run(p, max_body, two));
}

/// Where a body begins: with the size of a chunk where it comes in chunks, else with as many
/// bytes as the headers declare; a request that declares none, or no number, has no body.
pub proof fn law_where_a_body_begins(h: Seq<(Seq<char>, Seq<char>)>, n: usize)
    ensures
        text::contains_text(
            outside::lowercase(headers::header(h, "transfer-encoding"@)),
            "chunked"@,
        ) ==> first_stage(h) is Size,
        !text::contains_text(
            outside::lowercase(headers::header(h, "transfer-encoding"@)),
            "chunked"@,
        ) ==> {
            &&& headers::header(h, "content-length"@) == numeral::decimal(n as nat) ==> first_stage(h)
                == if n == 0 {
                Stage::Ended
            } else {
                Stage::Plain(n)
            }
            &&& numeral::read_unsigned(
                text::trimmed(headers::header(h, "content-length"@), Trim::Space),
                10,
            ) is None ==> first_stage(h) is Ended
        },
{
    if headers::header(h, "content-length"@) == numeral::decimal(n as nat) {
        law_declared_length_is_read(n, h);
    }
}

/// The size of a chunk may have an extension behind it and white space around it; an empty line
/// before it is passed over; what is no size, and the end of the input, end the body.
pub proof fn law_sizes_of_chunks(n: usize, gap: Seq<char>, extension: Seq<char>, line: Seq<char>)
    requires
        forall|i: int| 0 <= i < gap.len() ==> text::is_space(#[trigger] gap[i]),
    ensures
        ({
            let hex = numeral::numeral(n as nat, 16);
            let next = if n == 0 {
                Stage::Trailer
            } else {
                Stage::Data(n)
            };
            &&& stage_after_line(Stage::Size, Some(hex + seq!['\r', '\n'])) == next
            &&& stage_after_line(Stage::Size, Some(gap + hex + gap)) == next
            &&& stage_after_line(Stage::Size, Some(gap)) is Size
            &&& stage_after_line(Stage::Size, None) is Ended
            &&& size_text(line).len() > 0 && numeral::read_unsigned(size_text(line), 16) is None
                ==> stage_after_line(Stage::Size, Some(line)) is Ended
            &&& extension.len() == 0 || !text::is_space(extension.last()) ==> stage_after_line(
                Stage::Size,
                Some(hex + gap + seq![';'] + extension),
            ) == next
        }),
{
    let hex = numeral::numeral(n as nat, 16);
    law_bare_size_line(n);
    numeral::law_numerals_read_back(n as nat, 16);
    assert forall|i: int| 0 <= i < hex.len() implies hex[i] != ';' && !text::is_space(hex[i]) by {
        assert(numeral::digit_value(hex[i], 16) is Some);
    }
    text::law_trimming_undoes_padding(gap, hex, gap, Trim::Space);
    text::law_text_is_cut_at_the_first(hex, ';', extension);
    text::lemma_trimmed_same(hex, Trim::Space);
    assert(size_text(gap + hex + gap) == hex);
    let none = Seq::<char>::empty();
    assert(text::trimmed(gap, Trim::Space) =~= none);
    text::law_text_is_cut_at_the_first(none, ';', none);
    assert(text::trimmed(none, Trim::Space) =~= none);
    assert(size_text(gap) =~= none);
    if extension.len() == 0 || !text::is_space(extension.last()) {
        let l = hex + gap + seq![';'] + extension;
        assert(l[0] == hex[0]);
        assert(l.last() == if extension.len() > 0 {
            extension.last()
        } else {
            ';'
        });
        text::lemma_trimmed_same(l, Trim::Space);
        let a = hex + gap;
        assert forall|i: int| 0 <= i < a.len() implies a[i] != ';' by {
            if i < hex.len() {
                assert(a[i] == hex[i]);
            } else {
                assert(a[i] == gap[i - hex.len()]);
            }
        }
        text::law_text_is_cut_at_the_first(a, ';', extension);
        text::law_trimming_undoes_padding(none, hex, gap, Trim::Space);
        assert(none + hex + gap =~= a);
        assert(size_text(l) == hex);
    }
}

/// A body goes to a file beyond a megabyte, or beyond its limit where that is less; it is too
/// large beyond its limit, and never where it has none.
pub proof fn law_limits_of_a_body(mb: i64, total: int)
    requires
        0 <= total <= i64::MAX,
        total <= usize::MAX,
    ensures
        threshold(None) == 1_048_576,
        threshold(Some(mb)) == if mb < 0 {
            0
        } else if mb < 1_048_576 {
            mb as int
        } else {
            1_048_576
        },
        over(total, Some(mb)) <==> total > mb,
        !over(total, None),
{
}

/// The files of two bodies have different names: no two bodies of a process have one number,
/// and no two processes one file.
pub proof fn law_files_have_their_own_names(pid: u32, n: u64, pid2: u32, n2: u64)
    ensures
        spill_file(pid, n) == spill_file(pid2, n2) ==> pid == pid2 && n == n2,
        spill_file(pid, n) == "syn_body_"@ + numeral::decimal(pid as nat) + seq!['_']
            + numeral::decimal(n as nat),
{
    reveal_strlit("_");
    assert("_"@ =~= seq!['_']);
    if spill_file(pid, n) == spill_file(pid2, n2) {
        let start = "syn_body_"@;
        let k = start.len() as int;
        let a = numeral::decimal(pid as nat);
        let b = numeral::decimal(n as nat);
        let a2 = numeral::decimal(pid2 as nat);
        let b2 = numeral::decimal(n2 as nat);
        assert(spill_file(pid, n).skip(k) =~= a + seq!['_'] + b);
        assert(spill_file(pid2, n2).skip(k) =~= a2 + seq!['_'] + b2);
        numeral::law_numerals_read_back(pid as nat, 10);
        numeral::law_numerals_read_back(pid2 as nat, 10);
        numeral::law_numerals_read_back(n as nat, 10);
        numeral::law_numerals_read_back(n2 as nat, 10);
        assert forall|i: int| 0 <= i < a.len() implies a[i] != '_' by {
            assert(numeral::digit_value(a[i], 10) is Some);
        }
        assert forall|i: int| 0 <= i < a2.len() implies a2[i] != '_' by {
            assert(numeral::digit_value(a2[i], 10) is Some);
        }
        text::law_text_is_cut_at_the_first(a, '_', b);
        text::law_text_is_cut_at_the_first(a2, '_', b2);
    }
}

/// What is wanted at a stage is what the stage can take: a line where a line ends or sizes
/// stand, exactly the data of a chunk, and of a body of a declared length no more than is left
/// of it and something; nothing once the body is at its end or too large.
pub proof fn law_what_is_wanted_fits(stage: Stage, n: int)
    ensures
        want_at(stage) is Line <==> stage is Size || stage is DataEnd || stage is Trailer,
        want_at(stage) is Nothing <==> stage is Ended || stage is TooLarge,
        want_at(stage) matches Want::Exactly(k) ==> (fits_want(stage, n) <==> n == k),
        want_at(stage) matches Want::UpTo(k) ==> (fits_want(stage, n) <==> 1 <= n <= k) && k <= 65_536,
        stage matches Stage::Plain(left) ==> (want_at(stage) matches Want::UpTo(k) && k <= left && (
        left > 0 ==> k > 0)),
        stage matches Stage::Data(k) ==> want_at(stage) == Want::Exactly(k),
{
}

} // verus!
