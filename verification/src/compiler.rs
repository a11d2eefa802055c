//! Source registry: stable file identifiers, spans, line/column
//! resolution, and the diagnostics log that every stage of the front
//! end reports into.

use vstd::prelude::*;
use vstd::string::StringExecFns;

verus! {

/// Stable identifier of a registered source file. Identifiers are
/// 1-based; index 0 is the "unknown file" sentinel used for diagnostics
/// that cannot be tied to user source.
#[derive(Debug, Clone, Copy, PartialEq, Eq, Hash, Structural)]
pub struct SourceFile {
    index: u32,
}

impl SourceFile {
    pub closed spec fn spec_id(&self) -> int {
        self.index as int
    }

    pub fn new(index: usize) -> (r: SourceFile)
        requires
            index <= u32::MAX,
        ensures
            r.spec_id() == index,
    {
        SourceFile { index: index as u32 }
    }

    pub fn index(&self) -> (r: usize)
        ensures
            r == self.spec_id(),
    {
        self.index as usize
    }

    pub fn unknown() -> (r: SourceFile)
        ensures
            r.spec_id() == 0,
    {
        SourceFile::new(0)
    }
}

/// Half-open byte range locating content within one registered source
/// file. The unknown span is `(unknown file, 0, 0)`.
#[derive(Debug, Clone, Copy, PartialEq, Eq, Hash, Structural)]
pub struct SourceSpan {
    pub file: SourceFile,
    pub begin: u32,
    pub end: u32,
}

impl SourceSpan {
    /// Spans never have `end < begin`.
    pub open spec fn wf(&self) -> bool {
        self.begin <= self.end
    }

    pub fn new(file: SourceFile, begin: usize, end: usize) -> (r: SourceSpan)
        requires
            begin <= end <= u32::MAX,
        ensures
            r.file == file,
            r.begin == begin,
            r.end == end,
            r.wf(),
    {
        SourceSpan { file, begin: begin as u32, end: end as u32 }
    }

    /// The unknown span: unknown file, empty range.
    pub closed spec fn spec_unknown() -> SourceSpan {
        SourceSpan { file: SourceFile { index: 0 }, begin: 0, end: 0 }
    }

    pub fn unknown() -> (r: SourceSpan)
        ensures
            r == SourceSpan::spec_unknown(),
            r.file.spec_id() == 0,
            r.begin == 0,
            r.end == 0,
            r.wf(),
    {
        SourceSpan::new(SourceFile::unknown(), 0, 0)
    }

    pub fn file(&self) -> (r: SourceFile)
        ensures
            r == self.file,
    {
        self.file
    }

    pub fn begin(&self) -> (r: usize)
        ensures
            r == self.begin,
    {
        self.begin as usize
    }

    pub fn end(&self) -> (r: usize)
        ensures
            r == self.end,
    {
        self.end as usize
    }
}

/// Static compiler-source coordinates of the place that raised a
/// diagnostic, kept for self-debugging; distinct from `SourceSpan`,
/// which locates user source.
#[derive(Debug, Clone, Copy)]
pub struct InternalLocation {
    pub file: &'static str,
    pub line: u32,
}

/// One reported problem: message, user-facing source span, internal
/// raise-site, and free-form context strings. Created once at emission
/// time and never changed afterwards.
#[derive(Debug, Clone)]
pub struct ErrorInfo {
    pub message: String,
    pub location: SourceSpan,
    pub internal_location: InternalLocation,
    pub context: Vec<String>,
}

/// Marker for types that can resolve a `Locatable` to a span.
pub trait Locator {
}

/// Types that carry a user-source location.
pub trait Locatable {
    spec fn spec_span(&self) -> SourceSpan;

    fn source_span(&self) -> (r: SourceSpan)
        ensures
            r == self.spec_span(),
    ;
}

impl Locatable for SourceSpan {
    open spec fn spec_span(&self) -> SourceSpan {
        *self
    }

    fn source_span(&self) -> (r: SourceSpan) {
        *self
    }
}

/// An append-only log of structured diagnostics. `log()` is the
/// sequence of records appended so far; `push` extends it by exactly
/// one record and never removes or reorders earlier ones.
pub trait Errors {
    spec fn log(&self) -> Seq<ErrorInfo>;

    fn push(
        &mut self,
        int_loc: &InternalLocation,
        location: SourceSpan,
        message: String,
        context: Vec<String>,
    )
        ensures
            final(self).log() == old(self).log().push(
                (ErrorInfo { message, location, internal_location: *int_loc, context }),
            ),
    ;
}

/// Holds when `post` extends `pre` by exactly one record carrying the
/// given message and span, with no context strings.
pub open spec fn pushed_one(
    pre: Seq<ErrorInfo>,
    post: Seq<ErrorInfo>,
    message: Seq<char>,
    location: SourceSpan,
) -> bool {
    &&& post.len() == pre.len() + 1
    &&& forall|i: int| 0 <= i < pre.len() ==> post[i] == pre[i]
    &&& post.last().message@ == message
    &&& post.last().location == location
    &&& post.last().context@.len() == 0
}

/// Holds when `post` extends `pre`: nothing already logged is removed
/// or changed. The diagnostics log only grows.
pub open spec fn log_extends(pre: Seq<ErrorInfo>, post: Seq<ErrorInfo>) -> bool {
    &&& post.len() >= pre.len()
    &&& forall|i: int| 0 <= i < pre.len() ==> post[i] == pre[i]
}

/// Holds when `post` extends `pre` by exactly the given records, in
/// order: one appended record per `(message, location)` pair, each
/// without context strings.
pub open spec fn emitted(
    pre: Seq<ErrorInfo>,
    post: Seq<ErrorInfo>,
    diags: Seq<(Seq<char>, SourceSpan)>,
) -> bool {
    &&& post.len() == pre.len() + diags.len()
    &&& forall|i: int| 0 <= i < pre.len() ==> post[i] == pre[i]
    &&& forall|j: int|
        0 <= j < diags.len() ==> (#[trigger] post[pre.len() + j]).message@ == diags[j].0 && post[
            pre.len() + j].location == diags[j].1 && post[pre.len() + j].context@.len() == 0
}

pub broadcast proof fn lemma_emitted_trans(
    a: Seq<ErrorInfo>,
    b: Seq<ErrorInfo>,
    c: Seq<ErrorInfo>,
    d1: Seq<(Seq<char>, SourceSpan)>,
    d2: Seq<(Seq<char>, SourceSpan)>,
)
    requires
        #[trigger] emitted(a, b, d1),
        #[trigger] emitted(b, c, d2),
    ensures
        emitted(a, c, d1 + d2),
{
    assert forall|j: int| 0 <= j < (d1 + d2).len() implies (#[trigger] c[a.len() + j]).message@
        == (d1 + d2)[j].0 && c[a.len() + j].location == (d1 + d2)[j].1 && c[a.len()
        + j].context@.len() == 0 by {
        if j < d1.len() {
            assert(c[a.len() + j] == b[a.len() + j]);
        } else {
            assert(c[a.len() + j] == c[b.len() + (j - d1.len())]);
        }
    }
}

pub broadcast proof fn lemma_pushed_one_emitted(
    pre: Seq<ErrorInfo>,
    post: Seq<ErrorInfo>,
    message: Seq<char>,
    location: SourceSpan,
)
    requires
        #[trigger] pushed_one(pre, post, message, location),
    ensures
        emitted(pre, post, seq![(message, location)]),
{
}

pub broadcast proof fn lemma_log_extends_trans(a: Seq<ErrorInfo>, b: Seq<ErrorInfo>, c: Seq<ErrorInfo>)
    requires
        #[trigger] log_extends(a, b),
        #[trigger] log_extends(b, c),
    ensures
        log_extends(a, c),
{
}

pub broadcast proof fn lemma_pushed_one_extends(
    pre: Seq<ErrorInfo>,
    post: Seq<ErrorInfo>,
    message: Seq<char>,
    location: SourceSpan,
)
    requires
        #[trigger] pushed_one(pre, post, message, location),
    ensures
        log_extends(pre, post),
{
}

/// Appends one diagnostic without context strings, resolving the
/// locatable to a concrete span first.
pub fn push_error<E: Errors, L: Locatable>(
    errors: &mut E,
    int_loc: &InternalLocation,
    loc: &L,
    message: String,
)
    ensures
        pushed_one(old(errors).log(), final(errors).log(), message@, loc.spec_span()),
        final(errors).log().last().internal_location == *int_loc,
{
    let location = loc.source_span();
    errors.push(int_loc, location, message, Vec::new())
}

/// The ascending line-break table of a buffer: 0, then the offset just
/// past each newline byte. Strictly increasing, always starts at 0.
pub open spec fn spec_line_breaks(data: Seq<u8>) -> Seq<u32>
    decreases data.len(),
{
    if data.len() == 0 {
        seq![0u32]
    } else {
        spec_line_breaks(data.drop_last()) + if data.last() == 10 {
            seq![data.len() as u32]
        } else {
            Seq::empty()
        }
    }
}

/// Shape of the line-break table: it starts at 0, is strictly
/// increasing and bounded by the buffer, every entry past the first
/// sits just after a newline, and every newline contributes an entry.
pub proof fn lemma_line_breaks_props(data: Seq<u8>)
    requires
        data.len() <= u32::MAX,
    ensures
        ({
            let bs = spec_line_breaks(data);
            &&& 1 <= bs.len() <= data.len() + 1
            &&& bs[0] == 0
            &&& forall|i: int| 0 <= i < bs.len() ==> #[trigger] (bs[i]) <= data.len()
            &&& forall|i: int, j: int| 0 <= i < j < bs.len() ==> bs[i] < bs[j]
            &&& forall|k: int| 1 <= k < bs.len() ==> data[#[trigger] (bs[k]) - 1] == 10
            &&& forall|off: int|
                0 <= off < data.len() && data[off] == 10 ==> bs.contains((off + 1) as u32)
        }),
    decreases data.len(),
{
    let bs = spec_line_breaks(data);
    if data.len() > 0 {
        let prev = data.drop_last();
        lemma_line_breaks_props(prev);
        let pbs = spec_line_breaks(prev);
        assert forall|off: int|
            0 <= off < data.len() && data[off] == 10 implies bs.contains((off + 1) as u32) by {
            if off < data.len() - 1 {
                assert(prev[off] == data[off]);
                assert(pbs.contains((off + 1) as u32));
                let k = choose|k: int| 0 <= k < pbs.len() && pbs[k] == (off + 1) as u32;
                assert(bs[k] == pbs[k]);
            } else {
                assert(data.last() == 10);
                assert(bs.last() == data.len() as u32);
            }
        }
        assert forall|k: int| 1 <= k < bs.len() implies data[#[trigger] (bs[k]) - 1] == 10 by {
            if k < pbs.len() {
                assert(bs[k] == pbs[k]);
                assert(prev[pbs[k] - 1] == 10);
                assert(data[bs[k] - 1] == prev[pbs[k] - 1]);
            } else {
                assert(data.last() == 10);
                assert(bs[k] == data.len() as u32);
            }
        }
    }
}

/// A byte that begins a character in UTF-8 text: anything but a
/// continuation byte. Columns count decoded characters, not bytes,
/// so that byte offset and character column may diverge on non-ASCII
/// text. On well-formed UTF-8 this equals the decoded character
/// count; malformed bytes are counted by their lead bytes rather
/// than by replacement characters.
pub open spec fn is_char_start_byte(b: u8) -> bool {
    b < 128 || b >= 192
}

/// Number of character-start bytes in a byte sequence.
pub open spec fn count_char_starts(s: Seq<u8>) -> int
    decreases s.len(),
{
    if s.len() == 0 {
        0int
    } else {
        count_char_starts(s.drop_last()) + if is_char_start_byte(s.last()) {
            1int
        } else {
            0int
        }
    }
}

pub proof fn lemma_count_char_starts_bounds(s: Seq<u8>)
    ensures
        0 <= count_char_starts(s) <= s.len(),
    decreases s.len(),
{
    if s.len() > 0 {
        lemma_count_char_starts_bounds(s.drop_last());
    }
}

/// One registered source file: stable identifier, filename, raw bytes,
/// and the ascending line-break offset table computed from them.
#[derive(Debug, Clone)]
pub struct SourceFileInfo {
    file: SourceFile,
    name: String,
    data: Vec<u8>,
    line_breaks: Vec<u32>,
}

fn is_newline_byte(b: u8) -> (r: bool)
    ensures
        r == (b == 10),
{
    b == 10
}

/// Builds the line-break table of a buffer, the offsets where each
/// line begins.
fn compute_line_breaks(data: &Vec<u8>) -> (r: Vec<u32>)
    requires
        data@.len() <= u32::MAX,
    ensures
        r@ == spec_line_breaks(data@),
{
    let mut breaks: Vec<u32> = Vec::new();
    breaks.push(0);
    proof {
        assert(data@.subrange(0, 0) =~= Seq::<u8>::empty());
        assert(breaks@ =~= spec_line_breaks(data@.subrange(0, 0)));
    }
    let mut i: usize = 0;
    while i < data.len()
        invariant
            i <= data@.len() <= u32::MAX,
            breaks@ == spec_line_breaks(data@.subrange(0, i as int)),
        decreases data@.len() - i,
    {
        proof {
            assert(data@.subrange(0, i + 1).drop_last() =~= data@.subrange(0, i as int));
            assert(data@.subrange(0, i + 1).last() == data@[i as int]);
        }
        if is_newline_byte(data[i]) {
            breaks.push((i + 1) as u32);
            proof {
                assert(breaks@ =~= spec_line_breaks(data@.subrange(0, i + 1)));
            }
        } else {
            proof {
                assert(breaks@ =~= spec_line_breaks(data@.subrange(0, i + 1)));
            }
        }
        i = i + 1;
    }
    proof {
        assert(data@.subrange(0, data@.len() as int) =~= data@);
    }
    breaks
}

impl SourceFileInfo {
    pub closed spec fn spec_file(&self) -> SourceFile {
        self.file
    }

    pub closed spec fn spec_name(&self) -> Seq<char> {
        self.name@
    }

    pub closed spec fn spec_data(&self) -> Seq<u8> {
        self.data@
    }

    pub closed spec fn spec_breaks(&self) -> Seq<u32> {
        self.line_breaks@
    }

    /// The cached table is exactly the table of the data, computed
    /// once when the file is registered.
    pub open spec fn wf(&self) -> bool {
        &&& self.spec_data().len() < u32::MAX
        &&& self.spec_breaks() == spec_line_breaks(self.spec_data())
    }

    /// Builds a registered file's record; the registry is the only
    /// caller.
    pub(crate) fn make(file: SourceFile, name: String, data: Vec<u8>) -> (r: SourceFileInfo)
        requires
            data@.len() < u32::MAX,
        ensures
            r.wf(),
            r.spec_file() == file,
            r.spec_name() == name@,
            r.spec_data() == data@,
    {
        let line_breaks = compute_line_breaks(&data);
        SourceFileInfo { file, name, data, line_breaks }
    }

    pub fn file(&self) -> (r: SourceFile)
        ensures
            r == self.spec_file(),
    {
        self.file
    }

    pub fn name(&self) -> (r: &str)
        ensures
            r@ == self.spec_name(),
    {
        self.name.as_str()
    }

    pub fn data(&self) -> (r: &[u8])
        ensures
            r@ == self.spec_data(),
    {
        self.data.as_slice()
    }

    /// The cached ascending line-break offset table.
    pub fn line_breaks(&self) -> (r: &[u32])
        ensures
            r@ == self.spec_breaks(),
    {
        self.line_breaks.as_slice()
    }

    /// Line and column of a byte offset, both 0-based: the line whose
    /// break is the greatest one at or below the offset, and the
    /// number of decoded characters between that line's start and the
    /// offset.
    pub fn resolve_line_column(&self, offset: usize) -> (r: (u32, u32))
        requires
            self.wf(),
            offset <= self.spec_data().len(),
        ensures
            ({
                let bs = self.spec_breaks();
                let line = r.0 as int;
                &&& 0 <= line < bs.len()
                &&& bs[line] <= offset
                &&& (line + 1 < bs.len() ==> offset < bs[line + 1])
                &&& r.1 == count_char_starts(
                    self.spec_data().subrange(bs[line] as int, offset as int),
                )
            }),
    {
        proof {
            lemma_line_breaks_props(self.spec_data());
        }
        let breaks = &self.line_breaks;
        let off32 = offset as u32;

        let mut lo: usize = 0;
        let mut hi: usize = breaks.len();
        while hi - lo > 1
            invariant
                self.wf(),
                0 <= lo < hi <= breaks@.len(),
                breaks@ == self.spec_breaks(),
                offset <= self.spec_data().len(),
                off32 == offset,
                forall|i: int, j: int|
                    0 <= i < j < breaks@.len() ==> breaks@[i] < breaks@[j],
                breaks@[lo as int] <= off32,
                hi < breaks@.len() ==> off32 < breaks@[hi as int],
            decreases hi - lo,
        {
            let mid = lo + (hi - lo) / 2;
            if breaks[mid] <= off32 {
                lo = mid;
            } else {
                hi = mid;
            }
        }
        let line = lo;

        let begin = breaks[line] as usize;
        let ghost bs = self.spec_breaks();
        proof {
            lemma_count_char_starts_bounds(self.spec_data().subrange(begin as int, offset as int));
        }
        let mut col: u32 = 0;
        let mut i: usize = begin;
        proof {
            assert(self.spec_data().subrange(begin as int, begin as int) =~= Seq::<u8>::empty());
        }
        while i < offset
            invariant
                self.wf(),
                begin <= i <= offset <= self.spec_data().len(),
                col == count_char_starts(self.spec_data().subrange(begin as int, i as int)),
                col <= i - begin,
            decreases offset - i,
        {
            proof {
                assert(self.spec_data().subrange(begin as int, i + 1).drop_last()
                    =~= self.spec_data().subrange(begin as int, i as int));
                assert(self.spec_data().subrange(begin as int, i + 1).last() == self.spec_data()[i
                    as int]);
            }
            let b = self.data[i];
            if b < 128 || b >= 192 {
                col = col + 1;
            }
            i = i + 1;
        }

        (line as u32, col)
    }

    /// The bytes of one line: from its break to the next break, or to
    /// the end of the buffer for the last line (or past-the-end
    /// indices).
    pub fn get_line(&self, index: u32) -> (r: &[u8])
        requires
            self.wf(),
        ensures
            ({
                let bs = self.spec_breaks();
                let n = self.spec_data().len() as int;
                let b = if (index as int) < bs.len() {
                    bs[index as int] as int
                } else {
                    n
                };
                let e = if (index as int) + 1 < bs.len() {
                    bs[index as int + 1] as int
                } else {
                    n
                };
                r@ == self.spec_data().subrange(b, e)
            }),
    {
        proof {
            lemma_line_breaks_props(self.spec_data());
        }
        let idx = index as usize;
        let max_len = self.data.len();
        let begin = if idx < self.line_breaks.len() {
            let b = self.line_breaks[idx];
            b as usize
        } else {
            max_len
        };
        let end = if idx < self.line_breaks.len() - 1 {
            let e = self.line_breaks[idx + 1];
            e as usize
        } else {
            max_len
        };
        let s = self.data.as_slice();
        &s[begin..end]
    }
}

/// The column right after any newline is the first of its line: the
/// offset is itself a line break, so no characters precede it on that
/// line and the 0-based column is 0.
pub proof fn lemma_column_after_newline(data: Seq<u8>, off: int, line: int)
    requires
        data.len() <= u32::MAX,
        0 < off <= data.len(),
        data[off - 1] == 10,
        ({
            let bs = spec_line_breaks(data);
            &&& 0 <= line < bs.len()
            &&& bs[line] <= off
            &&& (line + 1 < bs.len() ==> off < bs[line + 1])
        }),
    ensures
        spec_line_breaks(data)[line] == off,
        count_char_starts(data.subrange(off, off)) == 0,
{
    lemma_line_breaks_props(data);
    let bs = spec_line_breaks(data);
    assert(bs.contains(off as u32));
    let k = choose|k: int| 0 <= k < bs.len() && bs[k] == off as u32;
    if k < line {
        assert(bs[k] < bs[line]);
        assert(false);
    }
    if k > line {
        assert(bs[line + 1] <= bs[k]);
        assert(false);
    }
    assert(data.subrange(off, off) =~= Seq::<u8>::empty());
}

/// Offset 0 always resolves to the first line and first column.
pub proof fn lemma_resolve_offset_zero(data: Seq<u8>, line: int)
    requires
        data.len() <= u32::MAX,
        ({
            let bs = spec_line_breaks(data);
            &&& 0 <= line < bs.len()
            &&& bs[line] <= 0
            &&& (line + 1 < bs.len() ==> 0 < bs[line + 1])
        }),
    ensures
        line == 0,
        count_char_starts(data.subrange(0, 0)) == 0,
{
    lemma_line_breaks_props(data);
    let bs = spec_line_breaks(data);
    if line > 0 {
        assert(bs[0] < bs[line]);
        assert(false);
    }
    assert(data.subrange(0, 0) =~= Seq::<u8>::empty());
}

/// A resolved span: filename, 0-based line and column of its begin
/// offset, and the text it covers.
#[derive(Debug, Clone)]
pub struct SourceSpanInfo {
    span: SourceSpan,
    filename: String,
    line: u32,
    column: u32,
    text: Vec<u8>,
}

impl SourceSpanInfo {
    pub closed spec fn spec_span(&self) -> SourceSpan {
        self.span
    }

    pub closed spec fn spec_filename(&self) -> Seq<char> {
        self.filename@
    }

    pub closed spec fn spec_line(&self) -> int {
        self.line as int
    }

    pub closed spec fn spec_column(&self) -> int {
        self.column as int
    }

    pub closed spec fn spec_text(&self) -> Seq<u8> {
        self.text@
    }

    pub open spec fn wf(&self) -> bool {
        &&& 0 <= self.spec_line() < u32::MAX
        &&& 0 <= self.spec_column() < u32::MAX
    }

    /// The bytes the span covers.
    pub fn text(&self) -> (r: &[u8])
        ensures
            r@ == self.spec_text(),
    {
        self.text.as_slice()
    }

    pub fn filename(&self) -> (r: &str)
        ensures
            r@ == self.spec_filename(),
    {
        self.filename.as_str()
    }

    /// 1-based line of the span's begin offset.
    pub fn line(&self) -> (r: u32)
        requires
            self.wf(),
        ensures
            r == self.spec_line() + 1,
    {
        self.line + 1
    }

    /// 1-based column of the span's begin offset.
    pub fn column(&self) -> (r: u32)
        requires
            self.wf(),
        ensures
            r == self.spec_column() + 1,
    {
        self.column + 1
    }
}

#[verifier::external_type_specification]
#[verifier::external_body]
#[verifier::reject_recursive_types(K)]
#[verifier::reject_recursive_types(V)]
#[verifier::reject_recursive_types(S)]
pub struct ExDashMap<K, V, S>(dashmap::DashMap<K, V, S>);

#[verifier::external_type_specification]
#[verifier::external_body]
pub struct ExRawMutex(parking_lot::RawMutex);

#[verifier::external_type_specification]
#[verifier::external_body]
#[verifier::reject_recursive_types(R)]
#[verifier::reject_recursive_types(T)]
pub struct ExMutex<R, T: ?Sized>(parking_lot::lock_api::Mutex<R, T>);

/// The path cache: registered path to file identifier.
pub type PathMap = dashmap::DashMap<String, u64>;

/// The file store: file identifier to the registered file's record.
pub type FileMap = dashmap::DashMap<u64, SourceFileInfo>;

/// The diagnostics log behind its lock.
pub type LogMutex = parking_lot::Mutex<Vec<ErrorInfo>>;

/// An empty path cache.
pub open spec fn no_names() -> Map<Seq<char>, u64> {
    Map::empty()
}

/// An empty file store.
pub open spec fn no_files() -> Map<u64, SourceFileInfo> {
    Map::empty()
}

/// What the path cache holds: a map from registered path to file
/// identifier.
pub uninterp spec fn dash_names_of(m: PathMap) -> Map<Seq<char>, u64>;

/// What the file store holds: a map from file identifier to the
/// registered file's record.
pub uninterp spec fn dash_files_of(m: FileMap) -> Map<u64, SourceFileInfo>;

/// What the diagnostics log holds behind its lock, in append order.
pub uninterp spec fn mutex_log_of(m: LogMutex) -> Seq<ErrorInfo>;

/// Relies on `dashmap::DashMap::new`: a fresh map is empty.
#[verifier::external_body]
fn dash_files_new() -> (r: FileMap)
    ensures
        dash_files_of(r) == no_files(),
{
    dashmap::DashMap::new()
}

/// Relies on `dashmap::DashMap::new`: a fresh map is empty.
#[verifier::external_body]
fn dash_names_new() -> (r: PathMap)
    ensures
        dash_names_of(r) == no_names(),
{
    dashmap::DashMap::new()
}

/// Relies on `dashmap::DashMap::insert`: the map afterwards holds `v`
/// at `k` and is otherwise unchanged.
#[verifier::external_body]
fn dash_names_insert(m: &mut PathMap, k: String, v: u64)
    ensures
        dash_names_of(*final(m)) == dash_names_of(*old(m)).insert(k@, v),
{
    m.insert(k, v);
}

/// Relies on `dashmap::DashMap::get`: the value stored at `k`, if the
/// key is present.
#[verifier::external_body]
fn dash_names_get(m: &PathMap, k: &str) -> (r: Option<u64>)
    ensures
        match r {
            Some(v) => dash_names_of(*m).contains_key(k@) && dash_names_of(*m)[k@] == v,
            None => !dash_names_of(*m).contains_key(k@),
        },
{
    m.get(k).map(|entry| *entry.value())
}

/// Relies on `dashmap::DashMap::insert`: the map afterwards holds `v`
/// at `k` and is otherwise unchanged; hands back a clone of the value
/// it stored.
#[verifier::external_body]
fn dash_files_insert(m: &mut FileMap, k: u64, v: SourceFileInfo) -> (r: SourceFileInfo)
    ensures
        dash_files_of(*final(m)) == dash_files_of(*old(m)).insert(k, v),
        r == v,
{
    let r = v.clone();
    m.insert(k, v);
    r
}

/// Relies on `dashmap::DashMap::get`: a clone of the value stored at
/// `k`, if the key is present.
#[verifier::external_body]
fn dash_files_get(m: &FileMap, k: u64) -> (r: Option<SourceFileInfo>)
    ensures
        match r {
            Some(v) => dash_files_of(*m).contains_key(k) && dash_files_of(*m)[k] == v,
            None => !dash_files_of(*m).contains_key(k),
        },
{
    m.get(&k).map(|entry| entry.value().clone())
}

/// Relies on `lock_api::Mutex::new` (via parking_lot): the mutex holds
/// exactly the given value.
#[verifier::external_body]
fn log_new() -> (r: LogMutex)
    ensures
        mutex_log_of(r) == Seq::<ErrorInfo>::empty(),
{
    parking_lot::Mutex::new(Vec::new())
}

/// Relies on `lock_api::Mutex::get_mut` (via parking_lot): exclusive
/// access to the value behind the lock; the push appends one record.
#[verifier::external_body]
fn log_push(m: &mut LogMutex, info: ErrorInfo)
    ensures
        mutex_log_of(*final(m)) == mutex_log_of(*old(m)).push(info),
{
    m.get_mut().push(info);
}

/// Relies on `lock_api::Mutex::lock` (via parking_lot): a snapshot of
/// the records logged so far.
#[verifier::external_body]
fn log_snapshot(m: &LogMutex) -> (r: Vec<ErrorInfo>)
    ensures
        r@ == mutex_log_of(*m),
{
    m.lock().clone()
}

pub open spec fn failed_open_message(path: Seq<char>) -> Seq<char> {
    "Failed to open file: "@ + path
}

/// The session-scoped registry: owns every registered source file,
/// assigns stable 1-based identifiers, caches path registrations, and
/// hosts the diagnostics log. The path cache and file store are
/// internally synchronized maps and the log sits behind a lock, so
/// lookups and diagnostic appension never hold a lock across I/O or
/// parsing. The verified interface is sequential: methods that change
/// the registry take it exclusively, because the contracts name the
/// maps' contents before and after a call; the synchronized
/// structures themselves remain safe to share.
pub struct Compiler {
    errors: LogMutex,
    files_by_name: PathMap,
    files_by_file: FileMap,
    file_index: usize,
}

impl Compiler {
    pub closed spec fn log_of(&self) -> Seq<ErrorInfo> {
        mutex_log_of(self.errors)
    }

    pub closed spec fn names_of(&self) -> Map<Seq<char>, u64> {
        dash_names_of(self.files_by_name)
    }

    pub closed spec fn files_of(&self) -> Map<u64, SourceFileInfo> {
        dash_files_of(self.files_by_file)
    }

    pub closed spec fn spec_next_index(&self) -> int {
        self.file_index as int
    }

    /// Identifiers are handed out from 1 up; every stored record is
    /// well-formed and keyed by its own identifier; every cached path
    /// points at a stored record.
    pub open spec fn wf(&self) -> bool {
        &&& 1 <= self.spec_next_index()
        &&& forall|id: u64|
            #[trigger] self.files_of().contains_key(id) ==> 1 <= id <= u32::MAX && id
                < self.spec_next_index() && self.files_of()[id].wf()
                && self.files_of()[id].spec_file().spec_id() == id
        &&& forall|nm: Seq<char>|
            #[trigger] self.names_of().contains_key(nm) ==> self.files_of().contains_key(
                self.names_of()[nm],
            )
    }

    pub fn new() -> (r: Compiler)
        ensures
            r.wf(),
            r.log_of() == Seq::<ErrorInfo>::empty(),
            r.names_of() == no_names(),
            r.files_of() == no_files(),
            r.spec_next_index() == 1,
    {
        Compiler {
            errors: log_new(),
            files_by_name: dash_names_new(),
            files_by_file: dash_files_new(),
            file_index: 1,
        }
    }

    /// The identifier the next registered file will get.
    pub fn next_file_index(&self) -> (r: usize)
        ensures
            r == self.spec_next_index(),
    {
        self.file_index
    }

    /// Registers a buffer supplied directly under a fresh identifier;
    /// the same path may be registered this way more than once, each
    /// registration getting its own identifier.
    pub fn add_file(&mut self, path: &str, source: Vec<u8>) -> (r: SourceFileInfo)
        requires
            old(self).wf(),
            old(self).spec_next_index() < u32::MAX,
            source@.len() < u32::MAX,
        ensures
            final(self).wf(),
            r.wf(),
            r.spec_name() == path@,
            r.spec_data() == source@,
            r.spec_file().spec_id() == old(self).spec_next_index(),
            final(self).spec_next_index() == old(self).spec_next_index() + 1,
            final(self).files_of() == old(self).files_of().insert(
                old(self).spec_next_index() as u64,
                r,
            ),
            final(self).names_of() == old(self).names_of(),
            final(self).log_of() == old(self).log_of(),
    {
        let ghost pre = *self;
        let id = self.file_index;
        let file = SourceFile::new(id);
        self.file_index = self.file_index + 1;
        let info = SourceFileInfo::make(file, String::from_str(path), source);
        let stored = dash_files_insert(&mut self.files_by_file, id as u64, info);
        proof {
            let m2 = self.files_of();
            assert forall|id2: u64|
                #[trigger] m2.contains_key(id2) implies 1 <= id2 <= u32::MAX && id2
                < self.spec_next_index() && m2[id2].wf() && m2[id2].spec_file().spec_id()
                == id2 by {
                if id2 != id as u64 {
                    assert(pre.files_of().contains_key(id2));
                    assert(m2[id2] == pre.files_of()[id2]);
                }
            }
            assert forall|nm: Seq<char>|
                #[trigger] self.names_of().contains_key(nm) implies m2.contains_key(
                self.names_of()[nm],
            ) by {
                assert(pre.files_of().contains_key(pre.names_of()[nm]));
            }
        }
        stored
    }

    /// Looks a path up in the registration cache.
    pub fn lookup_path(&self, path: &str) -> (r: Option<SourceFile>)
        requires
            self.wf(),
        ensures
            match r {
                Some(f) => self.names_of().contains_key(path@) && f.spec_id()
                    == self.names_of()[path@],
                None => !self.names_of().contains_key(path@),
            },
    {
        match dash_names_get(&self.files_by_name, path) {
            Some(id) => {
                proof {
                    assert(self.files_of().contains_key(self.names_of()[path@]));
                }
                Some(SourceFile::new(id as usize))
            },
            None => None,
        }
    }

    /// Registers a path with the outcome of reading its bytes: `None`
    /// degrades to an empty buffer plus a diagnostic tagged with the
    /// unknown span, so downstream stages proceed rather than abort.
    /// A path already registered keeps its identifier, its original
    /// bytes, and the registry untouched: the byte source's answer is
    /// ignored, never re-read into the session.
    pub fn load_file(&mut self, path: &str, source: Option<Vec<u8>>) -> (r: SourceFileInfo)
        requires
            old(self).wf(),
            old(self).spec_next_index() < u32::MAX,
            match source {
                Some(s) => s@.len() < u32::MAX,
                None => true,
            },
        ensures
            final(self).wf(),
            r.wf(),
            old(self).names_of().contains_key(path@) ==> *final(self) == *old(self) && r == old(
                self,
            ).files_of()[old(self).names_of()[path@]],
            !old(self).names_of().contains_key(path@) ==> {
                &&& r.spec_name() == path@
                &&& r.spec_file().spec_id() == old(self).spec_next_index()
                &&& final(self).spec_next_index() == old(self).spec_next_index() + 1
                &&& final(self).names_of() == old(self).names_of().insert(
                    path@,
                    old(self).spec_next_index() as u64,
                )
                &&& final(self).files_of() == old(self).files_of().insert(
                    old(self).spec_next_index() as u64,
                    r,
                )
                &&& match source {
                    Some(s) => r.spec_data() == s@ && final(self).log_of() == old(self).log_of(),
                    None => r.spec_data() == Seq::<u8>::empty() && pushed_one(
                        old(self).log_of(),
                        final(self).log_of(),
                        failed_open_message(path@),
                        SourceSpan::spec_unknown(),
                    ),
                }
            },
    {
        match dash_names_get(&self.files_by_name, path) {
            Some(id) => {
                proof {
                    assert(self.files_of().contains_key(self.names_of()[path@]));
                }
                let info = dash_files_get(&self.files_by_file, id);
                match info {
                    Some(found) => found,
                    None => {
                        proof {
                            assert(false);
                        }
                        vstd::pervasive::unreached()
                    },
                }
            },
            None => {
                let data = match source {
                    Some(bytes) => bytes,
                    None => {
                        let site = InternalLocation { file: "compiler.rs", line: 1071 };
                        let message = String::from_str("Failed to open file: ").concat(path);
                        let info = ErrorInfo {
                            message,
                            location: SourceSpan::unknown(),
                            internal_location: site,
                            context: Vec::new(),
                        };
                        log_push(&mut self.errors, info);
                        Vec::new()
                    },
                };
                proof {
                    assert(self.files_of() == old(self).files_of());
                    assert(self.names_of() == old(self).names_of());
                    assert(self.wf());
                }
                let id = self.file_index;
                let stored = self.add_file(path, data);
                let ghost mid = *self;
                dash_names_insert(&mut self.files_by_name, String::from_str(path), id as u64);
                proof {
                    assert(self.files_of() == mid.files_of());
                    assert(self.files_of().contains_key(id as u64));
                    assert forall|nm: Seq<char>|
                        #[trigger] self.names_of().contains_key(nm)
                        implies self.files_of().contains_key(self.names_of()[nm]) by {
                        if nm != path@ {
                            assert(mid.names_of().contains_key(nm));
                            assert(self.names_of()[nm] == mid.names_of()[nm]);
                        } else {
                            assert(self.names_of()[nm] == id as u64);
                        }
                    }
                }
                stored
            },
        }
    }

    /// The record of a registered file, if the identifier is known.
    pub fn file_info(&self, file: SourceFile) -> (r: Option<SourceFileInfo>)
        requires
            self.wf(),
        ensures
            match r {
                Some(info) => {
                    &&& self.files_of().contains_key(file.spec_id() as u64)
                    &&& info == self.files_of()[file.spec_id() as u64]
                    &&& info.wf()
                },
                None => !self.files_of().contains_key(file.spec_id() as u64),
            },
    {
        let key = file.index() as u64;
        proof {
            assert(file.spec_id() >= 0);
            assert(key == file.spec_id() as u64);
        }
        dash_files_get(&self.files_by_file, key)
    }

    /// Resolves a span to filename, 0-based line and column of its
    /// begin offset, and the text it covers; `None` if the span's file
    /// was never registered here.
    pub fn span_info(&self, span: SourceSpan) -> (r: Option<SourceSpanInfo>)
        requires
            self.wf(),
            self.files_of().contains_key(span.file.spec_id() as u64) ==> span.begin <= span.end
                <= self.files_of()[span.file.spec_id() as u64].spec_data().len(),
        ensures
            match r {
                Some(si) => {
                    &&& self.files_of().contains_key(span.file.spec_id() as u64)
                    &&& si.wf()
                    &&& ({
                        let info = self.files_of()[span.file.spec_id() as u64];
                        let bs = info.spec_breaks();
                        let line = si.spec_line();
                        &&& si.spec_span() == span
                        &&& si.spec_filename() == info.spec_name()
                        &&& si.spec_text() == info.spec_data().subrange(
                            span.begin as int,
                            span.end as int,
                        )
                        &&& 0 <= line < bs.len()
                        &&& bs[line] <= span.begin
                        &&& (line + 1 < bs.len() ==> span.begin < bs[line + 1])
                        &&& si.spec_column() == count_char_starts(
                            info.spec_data().subrange(bs[line] as int, span.begin as int),
                        )
                    })
                },
                None => !self.files_of().contains_key(span.file.spec_id() as u64),
            },
    {
        let info = match self.file_info(span.file()) {
            Some(info) => info,
            None => {
                return None;
            },
        };

        proof {
            lemma_line_breaks_props(info.spec_data());
            lemma_count_char_starts_bounds(
                info.spec_data().subrange(
                    info.spec_breaks()[0] as int,
                    info.spec_breaks()[0] as int,
                ),
            );
        }
        let (begin_line, begin_col) = info.resolve_line_column(span.begin());

        let data = info.data();
        let text_slice = &data[span.begin()..span.end()];
        let mut text: Vec<u8> = Vec::new();
        let mut i: usize = 0;
        while i < text_slice.len()
            invariant
                i <= text_slice@.len(),
                text@ == text_slice@.subrange(0, i as int),
            decreases text_slice@.len() - i,
        {
            text.push(text_slice[i]);
            proof {
                assert(text@ =~= text_slice@.subrange(0, i + 1));
            }
            i = i + 1;
        }
        proof {
            assert(text@ =~= text_slice@);
            lemma_count_char_starts_bounds(
                info.spec_data().subrange(
                    info.spec_breaks()[begin_line as int] as int,
                    span.begin as int,
                ),
            );
        }

        let filename = String::from_str(info.name());
        Some(SourceSpanInfo { span, filename, line: begin_line, column: begin_col, text })
    }

    /// A snapshot of every diagnostic reported so far, in append
    /// order.
    pub fn errors(&self) -> (r: Vec<ErrorInfo>)
        ensures
            r@ == self.log_of(),
    {
        log_snapshot(&self.errors)
    }
}

/// The registry's `log_of` and its diagnostics-sink view are one and
/// the same log: what `push_error` and the scanner contracts say of
/// `Errors::log` carries over to `Compiler::errors`.
pub broadcast proof fn lemma_compiler_log(c: Compiler)
    ensures
        #[trigger] c.log_of() == c.log(),
{
}

impl Locator for Compiler {
}

impl Errors for Compiler {
    closed spec fn log(&self) -> Seq<ErrorInfo> {
        mutex_log_of(self.errors)
    }

    fn push(
        &mut self,
        int_loc: &InternalLocation,
        location: SourceSpan,
        message: String,
        context: Vec<String>,
    ) {
        let info = ErrorInfo { message, location, internal_location: *int_loc, context };
        log_push(&mut self.errors, info);
    }
}

} // verus!
