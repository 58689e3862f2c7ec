//! Dialect detection and parsing of configuration text into an ordered line
//! tree. Supported families: indentation-nested (Cisco IOS / NXOS / Arista
//! EOS), brace-nested (Juniper Junos), and flattened `set`-statement text
//! (Junos "set" style). Parsing is total: every input yields a tree.
use vstd::prelude::*;

verus! {

/// The classification of one physical line of configuration text.
#[derive(Clone, Copy, Debug, PartialEq, Eq, Structural)]
pub enum LineKind {
    /// A configuration statement.
    Command,
    /// A literal or synthetic block terminator (a closing brace).
    Closing,
    /// A comment line.
    Comment,
}

/// The syntax family a document was detected to use.
#[derive(Clone, Copy, Debug, PartialEq, Eq, Structural)]
pub enum DialectKind {
    CiscoIos,
    CiscoNxos,
    AristaEos,
    JuniperJunos,
    JuniperJunosSet,
}

/// The mathematical model of one parsed line.
pub ghost struct LineModel {
    pub raw: Seq<char>,
    pub kind: LineKind,
    pub mtext: Option<Seq<char>>,
    pub parent: Option<int>,
    pub synthetic: bool,
}

/// One parsed line: its verbatim text, kind, normalized match text (`None`
/// for lines that can never match), parent index, and whether the line was
/// synthesized for ancestor bookkeeping (flattened dialect only).
pub struct Line {
    pub raw: String,
    pub kind: LineKind,
    pub match_text: Option<String>,
    pub parent: Option<usize>,
    pub synthetic: bool,
}

impl View for Line {
    type V = LineModel;

    open spec fn view(&self) -> LineModel {
        LineModel {
            raw: self.raw@,
            kind: self.kind,
            mtext: match self.match_text {
                Some(t) => Some(t@),
                None => None,
            },
            parent: match self.parent {
                Some(p) => Some(p as int),
                None => None,
            },
            synthetic: self.synthetic,
        }
    }
}

/// A whole parsed document: the ordered lines and, for each line, the ordered
/// list of its child indices.
pub struct ParsedConfig {
    pub lines: Vec<Line>,
    pub children: Vec<Vec<usize>>,
}

/// Every parent points strictly backwards in the document.
pub open spec fn parents_ok(m: Seq<LineModel>) -> bool {
    forall|i: int|
        0 <= i < m.len() ==> ((#[trigger] m[i].parent) matches Some(p) ==> 0 <= p < i)
}

/// The models of a sequence of parsed lines, in order.
pub open spec fn lines_model(s: Seq<Line>) -> Seq<LineModel> {
    Seq::new(s.len(), |i: int| s[i]@)
}

/// The parent index of an executable line, as a mathematical value.
pub open spec fn opt_int(o: Option<usize>) -> Option<int> {
    match o {
        Some(p) => Some(p as int),
        None => None,
    }
}

impl ParsedConfig {
    /// The model of the document: one `LineModel` per line, in order.
    pub open spec fn model(&self) -> Seq<LineModel> {
        lines_model(self.lines@)
    }

    pub open spec fn child_seq(&self, p: int) -> Seq<usize> {
        self.children@[p]@
    }

    /// Well-formedness: `children` is the exact inverse of `parent`, each
    /// child list ascending (= document order), and parents point backwards.
    pub open spec fn wf(&self) -> bool {
        &&& self.children@.len() == self.lines@.len()
        &&& parents_ok(self.model())
        &&& forall|p: int, k: int|
            0 <= p < self.children@.len() && 0 <= k < self.child_seq(p).len()
                ==> #[trigger] self.child_seq(p)[k] < self.lines@.len()
                    && self.model()[self.child_seq(p)[k] as int].parent == Some(p)
        &&& forall|p: int, k1: int, k2: int|
            0 <= p < self.children@.len() && 0 <= k1 < k2 < self.child_seq(p).len()
                ==> #[trigger] self.child_seq(p)[k1] < #[trigger] self.child_seq(p)[k2]
        &&& forall|i: int|
            0 <= i < self.model().len()
                ==> ((#[trigger] self.model()[i].parent) matches Some(p)
                    ==> self.child_seq(p).contains(i as usize))
    }
}

/// The closure/inverse invariant: a child list holds exactly the lines whose
/// parent field names it.
pub proof fn lemma_children_inverse(c: &ParsedConfig, p: usize, i: usize)
    requires
        c.wf(),
        p < c.model().len(),
        i < c.model().len(),
    ensures
        c.child_seq(p as int).contains(i) <==> c.model()[i as int].parent == Some(p as int),
{
    if c.child_seq(p as int).contains(i) {
        let k = choose|k: int|
            0 <= k < c.child_seq(p as int).len() && c.child_seq(p as int)[k] == i;
        assert(c.model()[c.child_seq(p as int)[k] as int].parent == Some(p as int));
    }
    if c.model()[i as int].parent == Some(p as int) {
        assert((c.model()[i as int].parent) matches Some(q) && q == p as int);
        assert(c.child_seq(p as int).contains(i));
    }
}

// ---------- character classes ----------

pub open spec fn is_ws(c: char) -> bool {
    c == ' ' || c == '\t' || c == '\r'
}

pub open spec fn is_comment_marker(c: char) -> bool {
    c == '#' || c == '!'
}

// ---------- splitting text into physical lines ----------

/// Position of the first newline in `s`, or `s.len()` if there is none.
pub open spec fn first_nl(s: Seq<char>) -> nat
    decreases s.len(),
{
    if s.len() == 0 {
        0
    } else if s[0] == '\n' {
        0
    } else {
        1 + first_nl(s.skip(1))
    }
}

/// A position with no newline before it, and a newline (or the end) at it, is
/// the first newline position.
pub proof fn lemma_first_nl_is(s: Seq<char>, k: int)
    requires
        0 <= k <= s.len(),
        forall|j: int| 0 <= j < k ==> s[j] != '\n',
        k == s.len() || s[k] == '\n',
    ensures
        first_nl(s) == k,
    decreases k,
{
    if k == 0 {
    } else {
        assert(s[0] != '\n');
        assert forall|j: int| 0 <= j < k - 1 implies s.skip(1)[j] != '\n' by {
            assert(s.skip(1)[j] == s[j + 1]);
        }
        lemma_first_nl_is(s.skip(1), k - 1);
    }
}

/// A physical line with one trailing carriage return removed.
pub open spec fn strip_cr(l: Seq<char>) -> Seq<char> {
    if l.len() > 0 && l[l.len() - 1] == '\r' {
        l.take(l.len() - 1)
    } else {
        l
    }
}

/// The physical lines of a text: terminators are dropped, a final line
/// without a newline counts, a trailing newline adds no empty line.
pub open spec fn split_lines_spec(s: Seq<char>) -> Seq<Seq<char>>
    decreases s.len(),
{
    if s.len() == 0 {
        Seq::empty()
    } else {
        let i = first_nl(s) as int;
        if i >= s.len() {
            seq![strip_cr(s)]
        } else {
            seq![strip_cr(s.take(i))] + split_lines_spec(s.skip(i + 1))
        }
    }
}

/// Split a text into its physical lines.
pub fn split_lines(s: &str) -> (v: Vec<String>)
    ensures
        v.deep_view() == split_lines_spec(s@),
{
    let n = s.unicode_len();
    let mut v: Vec<String> = Vec::new();
    let mut pos: usize = 0;
    proof {
        assert(s@.skip(0) =~= s@);
        assert(v.deep_view() =~= Seq::<Seq<char>>::empty());
        assert(v.deep_view() + split_lines_spec(s@.skip(0)) =~= split_lines_spec(s@));
    }
    while pos < n
        invariant
            n == s@.len(),
            pos <= n,
            v.deep_view() + split_lines_spec(s@.skip(pos as int)) =~= split_lines_spec(s@),
        decreases n - pos,
    {
        let mut end: usize = pos;
        while end < n && !char_eq(s.get_char(end), '\n')
            invariant
                n == s@.len(),
                pos <= end <= n,
                forall|j: int| pos <= j < end ==> s@[j] != '\n',
            decreases n - end,
        {
            end = end + 1;
        }
        let line_end = if end > pos && char_eq(s.get_char(end - 1), '\r') {
            end - 1
        } else {
            end
        };
        let piece = s.substring_char(pos, line_end).to_owned();
        proof {
            let rest = s@.skip(pos as int);
            lemma_first_nl_is(rest, end - pos);
            assert(first_nl(rest) == end - pos);
            if end == n {
                assert(strip_cr(rest) =~= s@.subrange(pos as int, line_end as int));
                assert(split_lines_spec(rest) =~= seq![strip_cr(rest)]);
            } else {
                assert(rest.take(end - pos) =~= s@.subrange(pos as int, end as int));
                assert(strip_cr(rest.take(end - pos)) =~= s@.subrange(
                    pos as int,
                    line_end as int,
                ));
                assert(rest.skip(end - pos + 1) =~= s@.skip(end + 1));
                assert(split_lines_spec(rest) =~= seq![
                    strip_cr(rest.take(end - pos)),
                ] + split_lines_spec(s@.skip(end + 1)));
            }
        }
        let ghost old_dv = v.deep_view();
        v.push(piece);
        proof {
            assert(v.deep_view() =~= old_dv.push(piece@));
        }
        if end == n {
            pos = n;
            proof {
                assert(s@.skip(n as int) =~= Seq::<char>::empty());
                assert(v.deep_view() + split_lines_spec(s@.skip(pos as int)) =~= split_lines_spec(
                    s@,
                ));
            }
        } else {
            pos = end + 1;
            proof {
                assert(v.deep_view() + split_lines_spec(s@.skip(pos as int)) =~= split_lines_spec(
                    s@,
                ));
            }
        }
    }
    proof {
        assert(s@.skip(pos as int) =~= Seq::<char>::empty());
        assert(v.deep_view() =~= split_lines_spec(s@));
    }
    v
}

/// Character equality as an executable helper.
pub fn char_eq(a: char, b: char) -> (r: bool)
    ensures
        r == (a == b),
{
    a == b
}

// ---------- trimming ----------

/// Number of leading whitespace characters.
pub open spec fn lead_ws(l: Seq<char>) -> nat
    decreases l.len(),
{
    if l.len() > 0 && is_ws(l[0]) {
        1 + lead_ws(l.skip(1))
    } else {
        0
    }
}

pub proof fn lemma_lead_ws_is(l: Seq<char>, k: int)
    requires
        0 <= k <= l.len(),
        forall|j: int| 0 <= j < k ==> is_ws(l[j]),
        k == l.len() || !is_ws(l[k]),
    ensures
        lead_ws(l) == k,
    decreases k,
{
    if k == 0 {
    } else {
        assert(is_ws(l[0]));
        assert forall|j: int| 0 <= j < k - 1 implies is_ws(l.skip(1)[j]) by {
            assert(l.skip(1)[j] == l[j + 1]);
        }
        lemma_lead_ws_is(l.skip(1), k - 1);
    }
}

/// Number of trailing whitespace characters.
pub open spec fn trail_ws(l: Seq<char>) -> nat
    decreases l.len(),
{
    if l.len() > 0 && is_ws(l[l.len() - 1]) {
        1 + trail_ws(l.take(l.len() - 1))
    } else {
        0
    }
}

pub proof fn lemma_trail_ws_is(l: Seq<char>, k: int)
    requires
        0 <= k <= l.len(),
        forall|j: int| k <= j < l.len() ==> is_ws(l[j]),
        k == 0 || !is_ws(l[k - 1]),
    ensures
        trail_ws(l) == l.len() - k,
    decreases l.len() - k,
{
    if k == l.len() {
    } else {
        assert(is_ws(l[l.len() - 1]));
        assert forall|j: int| k <= j < l.len() - 1 implies is_ws(#[trigger] l.take(l.len() - 1)[j]) by {
            assert(l.take(l.len() - 1)[j] == l[j]);
        }
        lemma_trail_ws_is(l.take(l.len() - 1), k);
    }
}

/// Start of the trimmed region of a line.
pub open spec fn trim_lo(l: Seq<char>) -> int {
    lead_ws(l) as int
}

/// End of the trimmed region of a line.
pub open spec fn trim_hi(l: Seq<char>) -> int {
    l.len() - trail_ws(l.skip(trim_lo(l)))
}

/// The line with leading and trailing whitespace removed.
pub open spec fn trimmed(l: Seq<char>) -> Seq<char> {
    l.subrange(trim_lo(l), trim_hi(l))
}

pub proof fn lemma_trim_bounds(l: Seq<char>)
    ensures
        0 <= trim_lo(l) <= trim_hi(l) <= l.len(),
    decreases l.len(),
{
    lemma_lead_ws_le(l);
    lemma_trail_ws_le(l.skip(trim_lo(l)));
    let r = l.skip(trim_lo(l));
    if trail_ws(r) == r.len() {
        if r.len() > 0 {
            lemma_trail_all_ws(r);
            assert(is_ws(r[0]));
            assert(l[trim_lo(l)] == r[0]);
            lemma_lead_ws_stops(l);
            assert(false);
        }
    }
}

pub proof fn lemma_lead_ws_le(l: Seq<char>)
    ensures
        lead_ws(l) <= l.len(),
    decreases l.len(),
{
    if l.len() > 0 && is_ws(l[0]) {
        lemma_lead_ws_le(l.skip(1));
    }
}

pub proof fn lemma_trail_ws_le(l: Seq<char>)
    ensures
        trail_ws(l) <= l.len(),
    decreases l.len(),
{
    if l.len() > 0 && is_ws(l[l.len() - 1]) {
        lemma_trail_ws_le(l.take(l.len() - 1));
    }
}

/// If `lead_ws` did not consume the whole line, the stopping character is not
/// whitespace.
pub proof fn lemma_lead_ws_stops(l: Seq<char>)
    requires
        lead_ws(l) < l.len(),
    ensures
        !is_ws(l[lead_ws(l) as int]),
    decreases l.len(),
{
    lemma_lead_ws_le(l);
    if l.len() > 0 && is_ws(l[0]) {
        lemma_lead_ws_stops(l.skip(1));
        assert(l.skip(1)[lead_ws(l.skip(1)) as int] == l[lead_ws(l) as int]);
    }
}

/// If every character is trailing whitespace then the first one is whitespace.
pub proof fn lemma_trail_all_ws(l: Seq<char>)
    requires
        l.len() > 0,
        trail_ws(l) == l.len(),
    ensures
        is_ws(l[0]),
    decreases l.len(),
{
    lemma_trail_ws_le(l.take(l.len() - 1));
    if l.len() > 1 {
        lemma_trail_all_ws(l.take(l.len() - 1));
        assert(l.take(l.len() - 1)[0] == l[0]);
    }
}

/// Compute the trimmed region `[a, b)` of a line.
pub fn trim_bounds(s: &str) -> (r: (usize, usize))
    ensures
        r.0 as int == trim_lo(s@),
        r.1 as int == trim_hi(s@),
        0 <= r.0 <= r.1 <= s@.len(),
        trimmed(s@) == s@.subrange(r.0 as int, r.1 as int),
{
    let n = s.unicode_len();
    let mut a: usize = 0;
    while a < n && is_ws_char(s.get_char(a))
        invariant
            n == s@.len(),
            a <= n,
            forall|j: int| 0 <= j < a ==> is_ws(s@[j]),
        decreases n - a,
    {
        a = a + 1;
    }
    proof {
        lemma_lead_ws_is(s@, a as int);
    }
    let mut b: usize = n;
    while b > a && is_ws_char(s.get_char(b - 1))
        invariant
            n == s@.len(),
            a <= b <= n,
            forall|j: int| b <= j < n ==> is_ws(s@[j]),
        decreases b,
    {
        b = b - 1;
    }
    proof {
        let r = s@.skip(a as int);
        assert forall|j: int| b - a <= j < r.len() implies is_ws(r[j]) by {
            assert(r[j] == s@[j + a]);
        }
        if b > a {
            assert(r[b - a - 1] == s@[b - 1]);
        }
        lemma_trail_ws_is(r, b - a);
        assert(trim_hi(s@) == b as int);
    }
    (a, b)
}

/// Whitespace test as an executable helper.
pub fn is_ws_char(c: char) -> (r: bool)
    ensures
        r == is_ws(c),
{
    c == ' ' || c == '\t' || c == '\r'
}

/// Comment-marker test as an executable helper.
pub fn is_marker_char(c: char) -> (r: bool)
    ensures
        r == is_comment_marker(c),
{
    c == '#' || c == '!'
}

// ---------- line classification ----------

pub open spec fn is_blank(l: Seq<char>) -> bool {
    trimmed(l).len() == 0
}

pub open spec fn is_comment_line(l: Seq<char>) -> bool {
    trimmed(l).len() > 0 && is_comment_marker(trimmed(l)[0])
}

/// Nesting depth of a line in the indentation dialect: the number of leading
/// whitespace characters.
pub open spec fn indent_of(l: Seq<char>) -> int {
    lead_ws(l) as int
}

/// Number of leading comment-marker characters.
pub open spec fn lead_marks(t: Seq<char>) -> nat
    decreases t.len(),
{
    if t.len() > 0 && is_comment_marker(t[0]) {
        1 + lead_marks(t.skip(1))
    } else {
        0
    }
}

pub proof fn lemma_lead_marks_is(t: Seq<char>, k: int)
    requires
        0 <= k <= t.len(),
        forall|j: int| 0 <= j < k ==> is_comment_marker(t[j]),
        k == t.len() || !is_comment_marker(t[k]),
    ensures
        lead_marks(t) == k,
    decreases k,
{
    if k == 0 {
    } else {
        assert(is_comment_marker(t[0]));
        assert forall|j: int| 0 <= j < k - 1 implies is_comment_marker(t.skip(1)[j]) by {
            assert(t.skip(1)[j] == t[j + 1]);
        }
        lemma_lead_marks_is(t.skip(1), k - 1);
    }
}

/// The body of a comment line: markers stripped, then whitespace stripped.
pub open spec fn comment_body(l: Seq<char>) -> Seq<char> {
    let t = trimmed(l);
    let r = t.skip(lead_marks(t) as int);
    r.skip(lead_ws(r) as int)
}

// ---------- the indentation-nested dialect ----------

/// Whether line `j` is a command statement for nesting purposes (neither
/// blank nor a comment).
pub open spec fn ind_is_cmd(ls: Seq<Seq<char>>, j: int) -> bool {
    0 <= j < ls.len() && !is_blank(ls[j]) && !is_comment_line(ls[j])
}

/// The nearest command line at or below `j` whose indentation is strictly
/// smaller than that of line `i`.
pub open spec fn ind_par_scan(ls: Seq<Seq<char>>, i: int, j: int) -> Option<int>
    decreases j + 1,
{
    if j < 0 {
        None
    } else if ind_is_cmd(ls, j) && indent_of(ls[j]) < indent_of(ls[i]) {
        Some(j)
    } else {
        ind_par_scan(ls, i, j - 1)
    }
}

/// The parent of a command line in the indentation dialect: the nearest
/// preceding command line with strictly smaller indentation.
pub open spec fn ind_parent_of(ls: Seq<Seq<char>>, i: int) -> Option<int> {
    if ind_is_cmd(ls, i) {
        ind_par_scan(ls, i, i - 1)
    } else {
        None
    }
}

/// The model of line `i` under the indentation grammar.
pub open spec fn ind_line_model(ls: Seq<Seq<char>>, i: int) -> LineModel {
    let l = ls[i];
    if is_blank(l) {
        LineModel { raw: l, kind: LineKind::Command, mtext: None, parent: None, synthetic: false }
    } else if is_comment_line(l) {
        LineModel {
            raw: l,
            kind: LineKind::Comment,
            mtext: Some(comment_body(l)),
            parent: None,
            synthetic: false,
        }
    } else {
        LineModel {
            raw: l,
            kind: LineKind::Command,
            mtext: Some(trimmed(l)),
            parent: ind_parent_of(ls, i),
            synthetic: false,
        }
    }
}

/// The model of a whole document under the indentation grammar.
pub open spec fn ind_model(ls: Seq<Seq<char>>) -> Seq<LineModel> {
    Seq::new(ls.len(), |i: int| ind_line_model(ls, i))
}

// ---------- shared executable helpers ----------

/// Trim whitespace from both ends of the region `[lo, hi)` of a line.
pub fn trim_range(s: &str, lo: usize, hi: usize) -> (r: (usize, usize))
    requires
        lo <= hi <= s@.len(),
    ensures
        lo <= r.0 <= r.1 <= hi,
        trimmed(s@.subrange(lo as int, hi as int)) == s@.subrange(r.0 as int, r.1 as int),
        r.0 as int - lo as int == trim_lo(s@.subrange(lo as int, hi as int)),
        r.1 as int - lo as int == trim_hi(s@.subrange(lo as int, hi as int)),
{
    let ghost u = s@.subrange(lo as int, hi as int);
    let mut a: usize = lo;
    while a < hi && is_ws_char(s.get_char(a))
        invariant
            lo <= a <= hi <= s@.len(),
            forall|j: int| lo <= j < a ==> is_ws(s@[j]),
        decreases hi - a,
    {
        a = a + 1;
    }
    proof {
        assert forall|j: int| 0 <= j < a - lo implies is_ws(u[j]) by {
            assert(u[j] == s@[lo + j]);
        }
        if a < hi {
            assert(u[a - lo] == s@[a as int]);
        }
        lemma_lead_ws_is(u, a - lo);
    }
    let mut b: usize = hi;
    while b > a && is_ws_char(s.get_char(b - 1))
        invariant
            a <= b <= hi,
            hi <= s@.len(),
            forall|j: int| b <= j < hi ==> is_ws(s@[j]),
        decreases b,
    {
        b = b - 1;
    }
    proof {
        let r = u.skip(a - lo);
        assert forall|j: int| b - a <= j < r.len() implies is_ws(r[j]) by {
            assert(r[j] == s@[a + j]);
        }
        if b > a {
            assert(r[b - a - 1] == s@[b - 1]);
        }
        lemma_trail_ws_is(r, b - a);
        assert(trim_hi(u) == b - lo);
        assert(trimmed(u) =~= s@.subrange(a as int, b as int));
    }
    (a, b)
}

/// Compute the body of a comment line whose trimmed region is `[a, b)`.
pub fn comment_body_exec(s: &str, a: usize, b: usize) -> (body: String)
    requires
        a < b <= s@.len(),
        a as int == trim_lo(s@),
        b as int == trim_hi(s@),
        is_comment_marker(s@[a as int]),
    ensures
        body@ == comment_body(s@),
{
    let mut m: usize = a;
    while m < b && is_marker_char(s.get_char(m))
        invariant
            a <= m <= b <= s@.len(),
            forall|j: int| a <= j < m ==> is_comment_marker(s@[j]),
        decreases b - m,
    {
        m = m + 1;
    }
    let mut m2: usize = m;
    while m2 < b && is_ws_char(s.get_char(m2))
        invariant
            m <= m2 <= b <= s@.len(),
            forall|j: int| m <= j < m2 ==> is_ws(s@[j]),
        decreases b - m2,
    {
        m2 = m2 + 1;
    }
    let body = s.substring_char(m2, b).to_owned();
    proof {
        let l = s@;
        let t = trimmed(l);
        assert(t == l.subrange(a as int, b as int));
        assert forall|j: int| 0 <= j < m - a implies is_comment_marker(t[j]) by {
            assert(t[j] == l[a + j]);
        }
        if m < b {
            assert(t[m - a] == l[m as int]);
        }
        lemma_lead_marks_is(t, m - a);
        let r = t.skip(m - a);
        assert(r =~= l.subrange(m as int, b as int));
        assert forall|j: int| 0 <= j < m2 - m implies is_ws(r[j]) by {
            assert(r[j] == l[m + j]);
        }
        if m2 < b {
            assert(r[m2 - m] == l[m2 as int]);
        }
        lemma_lead_ws_is(r, m2 - m);
        assert(comment_body(l) =~= l.subrange(m2 as int, b as int));
    }
    body
}

// ---------- the brace-nested dialect ----------

/// A block-closing line: a lone closing brace.
pub open spec fn is_closer(t: Seq<char>) -> bool {
    t.len() == 1 && t[0] == '}'
}

/// A block-opening line: ends with an opening brace.
pub open spec fn is_opener(t: Seq<char>) -> bool {
    t.len() > 0 && t[t.len() - 1] == '{' && !is_closer(t)
}

/// Match text of an opening line: the trailing brace and any whitespace
/// before it are dropped.
pub open spec fn open_text(t: Seq<char>) -> Seq<char> {
    trimmed(t.take(t.len() - 1))
}

/// Match text of a statement line: one trailing semicolon and any whitespace
/// before it are dropped.
pub open spec fn strip_semi(t: Seq<char>) -> Seq<char> {
    if t.len() > 0 && t[t.len() - 1] == ';' {
        trimmed(t.take(t.len() - 1))
    } else {
        t
    }
}

/// The stack of currently open block lines after the first `i` lines of a
/// brace-nested document.
pub open spec fn brace_stack(ls: Seq<Seq<char>>, i: int) -> Seq<int>
    decreases i,
{
    if i <= 0 {
        Seq::empty()
    } else {
        let st = brace_stack(ls, i - 1);
        let l = ls[i - 1];
        let t = trimmed(l);
        if is_blank(l) || is_comment_line(l) {
            st
        } else if is_closer(t) {
            if st.len() > 0 {
                st.drop_last()
            } else {
                st
            }
        } else if is_opener(t) {
            st.push(i - 1)
        } else {
            st
        }
    }
}

pub proof fn lemma_brace_stack_bounds(ls: Seq<Seq<char>>, i: int)
    ensures
        forall|k: int| 0 <= k < brace_stack(ls, i).len() ==> 0 <= #[trigger] brace_stack(ls, i)[k]
            < i,
    decreases i,
{
    if i > 0 {
        lemma_brace_stack_bounds(ls, i - 1);
        let st = brace_stack(ls, i - 1);
        let cur = brace_stack(ls, i);
        assert forall|k: int| 0 <= k < cur.len() implies 0 <= #[trigger] cur[k] < i by {
            let l = ls[i - 1];
            let t = trimmed(l);
            if is_blank(l) || is_comment_line(l) {
                assert(cur[k] == st[k]);
            } else if is_closer(t) {
                assert(cur[k] == st[k]);
            } else if is_opener(t) {
                if k < st.len() {
                    assert(cur[k] == st[k]);
                } else {
                    assert(cur[k] == i - 1);
                }
            } else {
                assert(cur[k] == st[k]);
            }
        }
    }
}

/// The innermost open block before line `i`.
pub open spec fn br_top(ls: Seq<Seq<char>>, i: int) -> Option<int> {
    let st = brace_stack(ls, i);
    if st.len() > 0 {
        Some(st.last())
    } else {
        None
    }
}

/// The model of line `i` under the brace grammar.
pub open spec fn br_line_model(ls: Seq<Seq<char>>, i: int) -> LineModel {
    let l = ls[i];
    let t = trimmed(l);
    if is_blank(l) {
        LineModel { raw: l, kind: LineKind::Command, mtext: None, parent: None, synthetic: false }
    } else if is_comment_line(l) {
        LineModel {
            raw: l,
            kind: LineKind::Comment,
            mtext: Some(comment_body(l)),
            parent: None,
            synthetic: false,
        }
    } else if is_closer(t) {
        LineModel {
            raw: l,
            kind: LineKind::Closing,
            mtext: Some(t),
            parent: br_top(ls, i),
            synthetic: false,
        }
    } else if is_opener(t) {
        LineModel {
            raw: l,
            kind: LineKind::Command,
            mtext: Some(open_text(t)),
            parent: br_top(ls, i),
            synthetic: false,
        }
    } else {
        LineModel {
            raw: l,
            kind: LineKind::Command,
            mtext: Some(strip_semi(t)),
            parent: br_top(ls, i),
            synthetic: false,
        }
    }
}

/// The model of a whole document under the brace grammar.
pub open spec fn br_model(ls: Seq<Seq<char>>) -> Seq<LineModel> {
    Seq::new(ls.len(), |i: int| br_line_model(ls, i))
}

/// Parse a document under the brace grammar.
pub fn parse_brace(lines: &Vec<String>) -> (c: ParsedConfig)
    ensures
        c.wf(),
        c.model() == br_model(lines.deep_view()),
{
    let ghost ls = lines.deep_view();
    let n = lines.len();
    let mut out: Vec<Line> = Vec::new();
    let mut stack: Vec<usize> = Vec::new();
    let mut i: usize = 0;
    while i < n
        invariant
            n == lines@.len(),
            ls == lines.deep_view(),
            i <= n,
            out@.len() == i,
            forall|k: int| 0 <= k < i ==> #[trigger] out@[k]@ == br_line_model(ls, k),
            stack@.len() == brace_stack(ls, i as int).len(),
            forall|k: int|
                0 <= k < stack@.len() ==> #[trigger] stack@[k] as int == brace_stack(
                    ls,
                    i as int,
                )[k],
        decreases n - i,
    {
        let s: &String = &lines[i];
        proof {
            assert(ls[i as int] == s@);
            lemma_brace_stack_bounds(ls, i as int);
        }
        let (a, b) = trim_range(s.as_str(), 0, s.as_str().unicode_len());
        proof {
            assert(s@.subrange(0, s@.len() as int) =~= s@);
            assert(trimmed(s@) == s@.subrange(a as int, b as int));
            assert(a as int == trim_lo(s@) && b as int == trim_hi(s@)) by {
                lemma_trim_bounds(s@);
            }
        }
        let top: Option<usize> = if stack.len() > 0 {
            Some(stack[stack.len() - 1])
        } else {
            None
        };
        proof {
            match top {
                Some(p) => assert(br_top(ls, i as int) == Some(p as int)),
                None => assert(br_top(ls, i as int) is None),
            }
        }
        if a == b {
            out.push(
                Line {
                    raw: s.clone(),
                    kind: LineKind::Command,
                    match_text: None,
                    parent: None,
                    synthetic: false,
                },
            );
            proof {
                assert(is_blank(ls[i as int]));
            }
        } else if is_marker_char(s.as_str().get_char(a)) {
            let body = comment_body_exec(s.as_str(), a, b);
            out.push(
                Line {
                    raw: s.clone(),
                    kind: LineKind::Comment,
                    match_text: Some(body),
                    parent: None,
                    synthetic: false,
                },
            );
            proof {
                assert(trimmed(ls[i as int])[0] == ls[i as int][a as int]);
                assert(is_comment_line(ls[i as int]));
            }
        } else if b - a == 1 && char_eq(s.as_str().get_char(a), '}') {
            let mt = s.as_str().substring_char(a, b).to_owned();
            out.push(
                Line {
                    raw: s.clone(),
                    kind: LineKind::Closing,
                    match_text: Some(mt),
                    parent: top,
                    synthetic: false,
                },
            );
            if stack.len() > 0 {
                let _ = stack.pop();
            }
            proof {
                let t = trimmed(ls[i as int]);
                assert(t[0] == ls[i as int][a as int]);
                assert(is_closer(t));
                assert(!is_comment_line(ls[i as int]));
            }
        } else if char_eq(s.as_str().get_char(b - 1), '{') {
            let (a2, b2) = trim_range(s.as_str(), a, b - 1);
            let mt = s.as_str().substring_char(a2, b2).to_owned();
            out.push(
                Line {
                    raw: s.clone(),
                    kind: LineKind::Command,
                    match_text: Some(mt),
                    parent: top,
                    synthetic: false,
                },
            );
            stack.push(i);
            proof {
                let l = ls[i as int];
                let t = trimmed(l);
                assert(t[t.len() - 1] == l[b - 1]);
                assert(t[0] == l[a as int]);
                assert(is_opener(t));
                assert(!is_comment_line(l));
                assert(t.take(t.len() - 1) =~= l.subrange(a as int, b - 1));
                assert(mt@ == open_text(t));
            }
        } else {
            let semi = char_eq(s.as_str().get_char(b - 1), ';');
            let (a2, b2) = if semi {
                trim_range(s.as_str(), a, b - 1)
            } else {
                (a, b)
            };
            let mt = s.as_str().substring_char(a2, b2).to_owned();
            out.push(
                Line {
                    raw: s.clone(),
                    kind: LineKind::Command,
                    match_text: Some(mt),
                    parent: top,
                    synthetic: false,
                },
            );
            proof {
                let l = ls[i as int];
                let t = trimmed(l);
                assert(t[t.len() - 1] == l[b - 1]);
                assert(t[0] == l[a as int]);
                assert(!is_comment_line(l) && !is_closer(t) && !is_opener(t));
                if semi {
                    assert(t.take(t.len() - 1) =~= l.subrange(a as int, b - 1));
                    assert(mt@ == strip_semi(t));
                } else {
                    assert(mt@ == strip_semi(t));
                }
            }
        }
        proof {
            assert(out@[i as int]@ == br_line_model(ls, i as int));
            assert(stack@.len() == brace_stack(ls, i + 1).len() && forall|k: int|
                0 <= k < stack@.len() ==> #[trigger] stack@[k] as int == brace_stack(ls, i + 1)[k]);
        }
        i = i + 1;
    }
    let children = build_children(&out);
    let c = ParsedConfig { lines: out, children };
    proof {
        assert(c.model() =~= br_model(ls));
        assert forall|k: int|
            0 <= k < c.model().len() implies ((#[trigger] c.model()[k].parent) matches Some(p)
            ==> 0 <= p < k) by {
            lemma_brace_stack_bounds(ls, k);
        }
        assert(parents_ok(c.model()));
    }
    c
}

// ---------- the flattened "set" dialect ----------

/// Length of the run of non-whitespace characters starting at `i`.
pub open spec fn run_len(l: Seq<char>, i: int) -> nat
    decreases l.len() - i,
{
    if 0 <= i < l.len() && !is_ws(l[i]) {
        1 + run_len(l, i + 1)
    } else {
        0
    }
}

pub proof fn lemma_run_len_is(l: Seq<char>, i: int, k: int)
    requires
        0 <= i <= k <= l.len(),
        forall|j: int| i <= j < k ==> !is_ws(l[j]),
        k == l.len() || is_ws(l[k]),
    ensures
        run_len(l, i) == k - i,
    decreases k - i,
{
    if i < k {
        lemma_run_len_is(l, i + 1, k);
    }
}

/// The maximal whitespace-separated word spans of a line, scanning from `i`.
pub open spec fn word_spans(l: Seq<char>, i: int) -> Seq<(int, int)>
    decreases l.len() - i,
{
    if !(0 <= i < l.len()) {
        Seq::empty()
    } else if is_ws(l[i]) {
        word_spans(l, i + 1)
    } else {
        let e0 = i + run_len(l, i);
        let e = if e0 > l.len() {
            l.len() as int
        } else {
            e0
        };
        seq![(i, e)] + word_spans(l, e)
    }
}

pub proof fn lemma_word_spans_bounds(l: Seq<char>, i: int)
    requires
        0 <= i,
    ensures
        forall|k: int|
            0 <= k < word_spans(l, i).len()
                ==> i <= (#[trigger] word_spans(l, i)[k]).0 < word_spans(l, i)[k].1 <= l.len(),
        forall|k: int|
            0 <= k < word_spans(l, i).len() - 1
                ==> (#[trigger] word_spans(l, i)[k]).1 <= word_spans(l, i)[k + 1].0,
    decreases l.len() - i,
{
    if 0 <= i < l.len() {
        if is_ws(l[i]) {
            lemma_word_spans_bounds(l, i + 1);
            assert(word_spans(l, i) == word_spans(l, i + 1));
            assert forall|k: int|
                0 <= k < word_spans(l, i).len() implies i <= (#[trigger] word_spans(l, i)[k]).0
                < word_spans(l, i)[k].1 <= l.len() by {
                assert(word_spans(l, i)[k] == word_spans(l, i + 1)[k]);
            }
            assert forall|k: int|
                0 <= k < word_spans(l, i).len() - 1 implies (#[trigger] word_spans(l, i)[k]).1
                <= word_spans(l, i)[k + 1].0 by {
                assert(word_spans(l, i)[k] == word_spans(l, i + 1)[k]);
                assert(word_spans(l, i)[k + 1] == word_spans(l, i + 1)[k + 1]);
            }
        } else {
            let e0 = i + run_len(l, i);
            let e = if e0 > l.len() {
                l.len() as int
            } else {
                e0
            };
            lemma_word_spans_bounds(l, e);
            assert(run_len(l, i) >= 1);
            assert forall|k: int|
                0 <= k < word_spans(l, i).len() implies i <= (#[trigger] word_spans(l, i)[k]).0
                < word_spans(l, i)[k].1 <= l.len() by {
                if k == 0 {
                    assert(word_spans(l, i)[0] == (i, e));
                } else {
                    assert(word_spans(l, i)[k] == word_spans(l, e)[k - 1]);
                }
            }
            assert forall|k: int|
                0 <= k < word_spans(l, i).len() - 1 implies (#[trigger] word_spans(l, i)[k]).1
                <= word_spans(l, i)[k + 1].0 by {
                if k == 0 {
                    assert(word_spans(l, i)[0] == (i, e));
                    assert(word_spans(l, i)[1] == word_spans(l, e)[0]);
                } else {
                    assert(word_spans(l, i)[k] == word_spans(l, e)[k - 1]);
                    assert(word_spans(l, i)[k + 1] == word_spans(l, e)[k]);
                }
            }
        }
    }
}

/// Keywords that take the following word into the same hierarchy level.
pub open spec fn pair_word(w: Seq<char>) -> bool {
    w == "unit"@ || w == "family"@ || w == "vlan"@
}

/// Keywords that begin the final statement of a `set` line: the rest of the
/// line is one level.
pub open spec fn leaf_word(w: Seq<char>) -> bool {
    w == "address"@ || w == "description"@ || w == "host-name"@
}

/// Group the word spans of a trimmed `set` line (from span `k` on) into
/// hierarchy components.
pub open spec fn comps_from(t: Seq<char>, sp: Seq<(int, int)>, k: int) -> Seq<Seq<char>>
    decreases sp.len() - k,
{
    if k >= sp.len() {
        Seq::empty()
    } else {
        let w = t.subrange(sp[k].0, sp[k].1);
        if leaf_word(w) {
            seq![t.subrange(sp[k].0, t.len() as int)]
        } else if pair_word(w) && k + 1 < sp.len() {
            seq![t.subrange(sp[k].0, sp[k + 1].1)] + comps_from(t, sp, k + 2)
        } else {
            seq![w] + comps_from(t, sp, k + 1)
        }
    }
}

/// The hierarchy components of a trimmed `set` line, the leading `set` word
/// dropped.
pub open spec fn set_comps(t: Seq<char>) -> Seq<Seq<char>> {
    comps_from(t, word_spans(t, 0), 1)
}

/// Whether a trimmed line is a `set` statement.
pub open spec fn is_set_line(t: Seq<char>) -> bool {
    t.len() >= 4 && t[0] == 's' && t[1] == 'e' && t[2] == 't' && t[3] == ' '
}

/// First synthetic line under `par` whose match text is `text`, scanning from
/// `j`.
pub open spec fn find_syn(m: Seq<LineModel>, par: Option<int>, text: Seq<char>, j: int) -> Option<
    int,
>
    decreases m.len() - j,
{
    if j >= m.len() {
        None
    } else if m[j].synthetic && m[j].parent == par && m[j].mtext == Some(text) {
        Some(j)
    } else {
        find_syn(m, par, text, j + 1)
    }
}

/// A synthetic ancestor line for one hierarchy component.
pub open spec fn syn_model(text: Seq<char>, par: Option<int>) -> LineModel {
    LineModel {
        raw: Seq::empty(),
        kind: LineKind::Command,
        mtext: Some(text),
        parent: par,
        synthetic: true,
    }
}

/// Walk (or create) the synthetic ancestors for the components before the
/// last one; returns the extended model and the parent of the final node.
pub open spec fn set_add_path(
    m: Seq<LineModel>,
    par: Option<int>,
    comps: Seq<Seq<char>>,
    k: int,
) -> (Seq<LineModel>, Option<int>)
    decreases comps.len() - k,
{
    if k < 0 || k >= comps.len() - 1 {
        (m, par)
    } else {
        match find_syn(m, par, comps[k], 0) {
            Some(j) => set_add_path(m, Some(j), comps, k + 1),
            None => set_add_path(
                m.push(syn_model(comps[k], par)),
                Some(m.len() as int),
                comps,
                k + 1,
            ),
        }
    }
}

/// Extend the model by one line of a flattened document.
pub open spec fn set_step(m: Seq<LineModel>, l: Seq<char>) -> Seq<LineModel> {
    let t = trimmed(l);
    if is_blank(l) {
        m.push(
            LineModel {
                raw: l,
                kind: LineKind::Command,
                mtext: None,
                parent: None,
                synthetic: false,
            },
        )
    } else if is_comment_line(l) {
        m.push(
            LineModel {
                raw: l,
                kind: LineKind::Comment,
                mtext: Some(comment_body(l)),
                parent: None,
                synthetic: false,
            },
        )
    } else if !is_set_line(t) || word_spans(t, 0).len() < 2 {
        m.push(
            LineModel {
                raw: l,
                kind: LineKind::Command,
                mtext: Some(t),
                parent: None,
                synthetic: false,
            },
        )
    } else {
        let comps = set_comps(t);
        let r = set_add_path(m, None, comps, 0);
        r.0.push(
            LineModel {
                raw: l,
                kind: LineKind::Command,
                mtext: Some(comps.last()),
                parent: r.1,
                synthetic: false,
            },
        )
    }
}

/// The model of the first `i` lines of a flattened document.
pub open spec fn set_model_rec(ls: Seq<Seq<char>>, i: int) -> Seq<LineModel>
    decreases i,
{
    if i <= 0 {
        Seq::empty()
    } else {
        set_step(set_model_rec(ls, i - 1), ls[i - 1])
    }
}

/// The model of a whole flattened document.
pub open spec fn set_model(ls: Seq<Seq<char>>) -> Seq<LineModel> {
    set_model_rec(ls, ls.len() as int)
}

/// Compute the word spans of the trimmed region `[a, b)` of a line.
pub fn word_spans_exec(s: &str, a: usize, b: usize) -> (sp: Vec<(usize, usize)>)
    requires
        a <= b <= s@.len(),
    ensures
        sp@.len() == word_spans(s@.subrange(a as int, b as int), 0).len(),
        forall|k: int|
            0 <= k < sp@.len()
                ==> a <= (#[trigger] sp@[k]).0 < sp@[k].1 <= b
                    && word_spans(s@.subrange(a as int, b as int), 0)[k] == (
                    sp@[k].0 - a as int,
                    sp@[k].1 - a as int,
                ),
{
    let ghost t = s@.subrange(a as int, b as int);
    let mut sp: Vec<(usize, usize)> = Vec::new();
    let ghost mut spq: Seq<(int, int)> = Seq::empty();
    let mut p: usize = a;
    proof {
        assert(spq + word_spans(t, 0) =~= word_spans(t, 0));
    }
    while p < b
        invariant
            a <= p <= b <= s@.len(),
            t == s@.subrange(a as int, b as int),
            spq + word_spans(t, p - a as int) =~= word_spans(t, 0),
            sp@.len() == spq.len(),
            forall|k: int|
                0 <= k < sp@.len()
                    ==> a <= (#[trigger] sp@[k]).0 < sp@[k].1 <= b && spq[k] == (
                    sp@[k].0 - a as int,
                    sp@[k].1 - a as int,
                ),
        decreases b - p,
    {
        if is_ws_char(s.get_char(p)) {
            proof {
                assert(t[p - a] == s@[p as int]);
                assert(word_spans(t, p - a as int) =~= word_spans(t, p + 1 - a as int));
            }
            p = p + 1;
        } else {
            let mut e: usize = p;
            while e < b && !is_ws_char(s.get_char(e))
                invariant
                    p <= e <= b <= s@.len(),
                    forall|j: int| p <= j < e ==> !is_ws(s@[j]),
                decreases b - e,
            {
                e = e + 1;
            }
            proof {
                assert forall|j: int| p - a <= j < e - a implies !is_ws(t[j]) by {
                    assert(t[j] == s@[a + j]);
                }
                if e < b {
                    assert(t[e - a] == s@[e as int]);
                }
                lemma_run_len_is(t, p - a as int, e - a as int);
                assert(t[p - a] == s@[p as int]);
                assert(word_spans(t, p - a as int) =~= seq![
                    ((p - a) as int, (e - a) as int),
                ] + word_spans(t, e - a as int));
            }
            sp.push((p, e));
            proof {
                spq = spq.push(((p - a) as int, (e - a) as int));
                assert(spq + word_spans(t, e - a as int) =~= word_spans(t, 0));
            }
            p = e;
        }
    }
    proof {
        assert(word_spans(t, b - a as int) =~= Seq::<(int, int)>::empty());
        assert(spq =~= word_spans(t, 0));
    }
    sp
}

/// String equality as an executable helper.
pub fn string_eq(a: &String, b: &String) -> (r: bool)
    ensures
        r == (a@ == b@),
{
    *a == *b
}

pub fn pair_word_exec(w: &String) -> (r: bool)
    ensures
        r == pair_word(w@),
{
    let u = String::from_str("unit");
    let f = String::from_str("family");
    let v = String::from_str("vlan");
    string_eq(w, &u) || string_eq(w, &f) || string_eq(w, &v)
}

pub fn leaf_word_exec(w: &String) -> (r: bool)
    ensures
        r == leaf_word(w@),
{
    let a = String::from_str("address");
    let d = String::from_str("description");
    let h = String::from_str("host-name");
    string_eq(w, &a) || string_eq(w, &d) || string_eq(w, &h)
}

/// Parse a document under the flattened `set` grammar.
#[verifier::rlimit(100)]
pub fn parse_set(lines: &Vec<String>) -> (c: ParsedConfig)
    ensures
        c.wf(),
        c.model() == set_model(lines.deep_view()),
{
    let ghost ls = lines.deep_view();
    let n = lines.len();
    let mut out: Vec<Line> = Vec::new();
    let mut i: usize = 0;
    while i < n
        invariant
            n == lines@.len(),
            ls == lines.deep_view(),
            i <= n,
            lines_model(out@) == set_model_rec(ls, i as int),
            forall|k: int|
                0 <= k < out@.len() ==> ((#[trigger] out@[k]@.parent) matches Some(p) ==> 0 <= p
                    < k),
        decreases n - i,
    {
        let ghost m_prev = lines_model(out@);
        let s: &String = &lines[i];
        proof {
            assert(ls[i as int] == s@);
        }
        let (a, b) = trim_range(s.as_str(), 0, s.as_str().unicode_len());
        proof {
            assert(s@.subrange(0, s@.len() as int) =~= s@);
            assert(trimmed(s@) == s@.subrange(a as int, b as int));
        }
        let ghost t = trimmed(s@);
        if a == b {
            out.push(
                Line {
                    raw: s.clone(),
                    kind: LineKind::Command,
                    match_text: None,
                    parent: None,
                    synthetic: false,
                },
            );
            proof {
                assert(is_blank(s@));
                assert(lines_model(out@) =~= set_step(m_prev, ls[i as int]));
            }
        } else if is_marker_char(s.as_str().get_char(a)) {
            let body = comment_body_exec(s.as_str(), a, b);
            out.push(
                Line {
                    raw: s.clone(),
                    kind: LineKind::Comment,
                    match_text: Some(body),
                    parent: None,
                    synthetic: false,
                },
            );
            proof {
                assert(t[0] == s@[a as int]);
                assert(is_comment_line(s@));
                assert(lines_model(out@) =~= set_step(m_prev, ls[i as int]));
            }
        } else {
            let is_set = b - a >= 4 && char_eq(s.as_str().get_char(a), 's') && char_eq(
                s.as_str().get_char(a + 1),
                'e',
            ) && char_eq(s.as_str().get_char(a + 2), 't') && char_eq(
                s.as_str().get_char(a + 3),
                ' ',
            );
            proof {
                if b - a >= 4 {
                    assert(t[0] == s@[a as int]);
                    assert(t[1] == s@[a + 1]);
                    assert(t[2] == s@[a + 2]);
                    assert(t[3] == s@[a + 3]);
                }
                assert(is_set == is_set_line(t));
            }
            let sp = word_spans_exec(s.as_str(), a, b);
            let ghost spq = word_spans(t, 0);
            proof {
                lemma_word_spans_bounds(t, 0);
            }
            if !is_set || sp.len() < 2 {
                let mt = s.as_str().substring_char(a, b).to_owned();
                out.push(
                    Line {
                        raw: s.clone(),
                        kind: LineKind::Command,
                        match_text: Some(mt),
                        parent: None,
                        synthetic: false,
                    },
                );
                proof {
                    assert(!is_comment_line(s@));
                    assert(lines_model(out@) =~= set_step(m_prev, ls[i as int]));
                }
            } else {
                // group the word spans (the leading `set` word dropped) into
                // hierarchy components
                let mut comps: Vec<String> = Vec::new();
                let mut k: usize = 1;
                proof {
                    assert(comps.deep_view() =~= Seq::<Seq<char>>::empty());
                    assert(comps.deep_view() + comps_from(t, spq, 1) =~= comps_from(t, spq, 1));
                }
                while k < sp.len()
                    invariant
                        1 <= k,
                        a <= b <= s@.len(),
                        t == trimmed(s@),
                        t == s@.subrange(a as int, b as int),
                        spq == word_spans(t, 0),
                        sp@.len() == spq.len(),
                        forall|q: int|
                            0 <= q < sp@.len()
                                ==> a <= (#[trigger] sp@[q]).0 < sp@[q].1 <= b && spq[q] == (
                                sp@[q].0 - a as int,
                                sp@[q].1 - a as int,
                            ),
                        forall|q: int|
                            0 <= q < spq.len() - 1 ==> (#[trigger] spq[q]).1 <= spq[q + 1].0,
                        comps.deep_view() + comps_from(t, spq, k as int) =~= comps_from(t, spq, 1),
                        k > 1 ==> comps@.len() >= 1,
                    decreases sp@.len() - k,
                {
                    let (ws, we) = (sp[k].0, sp[k].1);
                    let w = s.as_str().substring_char(ws, we).to_owned();
                    proof {
                        assert(w@ =~= t.subrange(spq[k as int].0, spq[k as int].1));
                    }
                    let ghost old_comps = comps.deep_view();
                    if leaf_word_exec(&w) {
                        let rest = s.as_str().substring_char(ws, b).to_owned();
                        comps.push(rest);
                        proof {
                            assert(rest@ =~= t.subrange(spq[k as int].0, t.len() as int));
                            assert(comps.deep_view() =~= old_comps.push(rest@));
                            assert(comps_from(t, spq, k as int) =~= seq![rest@]);
                            assert(comps.deep_view() + comps_from(t, spq, sp@.len() as int)
                                =~= comps_from(t, spq, 1));
                        }
                        k = sp.len();
                    } else if k + 1 < sp.len() && pair_word_exec(&w) {
                        let pe = sp[k + 1].1;
                        let pair = s.as_str().substring_char(ws, pe).to_owned();
                        comps.push(pair);
                        proof {
                            assert(pair@ =~= t.subrange(spq[k as int].0, spq[k as int + 1].1));
                            assert(comps.deep_view() =~= old_comps.push(pair@));
                            assert(comps_from(t, spq, k as int) =~= seq![pair@] + comps_from(
                                t,
                                spq,
                                k as int + 2,
                            ));
                            assert(comps.deep_view() + comps_from(t, spq, k as int + 2)
                                =~= comps_from(t, spq, 1));
                        }
                        k = k + 2;
                    } else {
                        comps.push(w);
                        proof {
                            let wv = t.subrange(spq[k as int].0, spq[k as int].1);
                            assert(comps.deep_view() =~= old_comps.push(wv));
                            assert(comps_from(t, spq, k as int) =~= seq![wv] + comps_from(
                                t,
                                spq,
                                k as int + 1,
                            ));
                            assert(comps.deep_view() + comps_from(t, spq, k as int + 1)
                                =~= comps_from(t, spq, 1));
                        }
                        k = k + 1;
                    }
                }
                proof {
                    assert(comps_from(t, spq, k as int) =~= Seq::<Seq<char>>::empty());
                    assert(comps.deep_view() =~= set_comps(t));
                }
                let ghost compsv = set_comps(t);
                let ghost m_start = lines_model(out@);
                // walk or create the synthetic ancestors
                let mut par: Option<usize> = None;
                let mut kk: usize = 0;
                proof {
                    assert(set_add_path(m_start, None, compsv, 0) == set_add_path(
                        lines_model(out@),
                        opt_int(par),
                        compsv,
                        0,
                    ));
                }
                while kk < comps.len() - 1
                    invariant
                        kk < comps@.len(),
                        comps@.len() >= 1,
                        comps.deep_view() == compsv,
                        compsv.len() == comps@.len(),
                        set_add_path(m_start, None, compsv, 0) == set_add_path(
                            lines_model(out@),
                            opt_int(par),
                            compsv,
                            kk as int,
                        ),
                        par matches Some(p) ==> (p as int) < out@.len(),
                        forall|q: int|
                            0 <= q < out@.len() ==> ((#[trigger] out@[q]@.parent) matches Some(p)
                                ==> 0 <= p < q),
                    decreases comps@.len() - kk,
                {
                    let text: &String = &comps[kk];
                    proof {
                        assert(text@ == compsv[kk as int]);
                    }
                    let mut j: usize = 0;
                    let mut found: Option<usize> = None;
                    while j < out.len() && found.is_none()
                        invariant
                            j <= out@.len(),
                            text@ == compsv[kk as int],
                            match found {
                                None => find_syn(lines_model(out@), opt_int(par), text@, 0)
                                    == find_syn(lines_model(out@), opt_int(par), text@, j as int),
                                Some(f) => find_syn(lines_model(out@), opt_int(par), text@, 0)
                                    == Some(f as int) && (f as int) < out@.len(),
                            },
                        decreases out@.len() - j,
                    {
                        let node = &out[j];
                        let par_eq = match (node.parent, par) {
                            (Some(q), Some(p)) => q == p,
                            (None, None) => true,
                            _ => false,
                        };
                        let mt_eq = match &node.match_text {
                            Some(mt) => string_eq(mt, text),
                            None => false,
                        };
                        if node.synthetic && par_eq && mt_eq {
                            found = Some(j);
                            proof {
                                let m = lines_model(out@);
                                assert(m[j as int] == out@[j as int]@);
                                assert(find_syn(m, opt_int(par), text@, j as int) == Some(
                                    j as int,
                                ));
                            }
                        } else {
                            proof {
                                let m = lines_model(out@);
                                assert(m[j as int] == out@[j as int]@);
                                assert(find_syn(m, opt_int(par), text@, j as int) == find_syn(
                                    m,
                                    opt_int(par),
                                    text@,
                                    j as int + 1,
                                ));
                            }
                        }
                        j = j + 1;
                    }
                    let ghost m_before = lines_model(out@);
                    let ghost par_before = opt_int(par);
                    match found {
                        Some(f) => {
                            par = Some(f);
                            proof {
                                assert(set_add_path(m_before, par_before, compsv, kk as int)
                                    == set_add_path(m_before, Some(f as int), compsv, kk as int
                                    + 1));
                            }
                        },
                        None => {
                            let node_idx = out.len();
                            out.push(
                                Line {
                                    raw: String::new(),
                                    kind: LineKind::Command,
                                    match_text: Some(text.clone()),
                                    parent: par,
                                    synthetic: true,
                                },
                            );
                            par = Some(node_idx);
                            proof {
                                assert(find_syn(m_before, par_before, text@, 0) is None);
                                assert(lines_model(out@) =~= m_before.push(
                                    syn_model(text@, par_before),
                                ));
                                assert(set_add_path(m_before, par_before, compsv, kk as int)
                                    == set_add_path(
                                    m_before.push(syn_model(text@, par_before)),
                                    Some(m_before.len() as int),
                                    compsv,
                                    kk as int + 1,
                                ));
                            }
                        },
                    }
                    kk = kk + 1;
                }
                let mt = comps[comps.len() - 1].clone();
                proof {
                    assert(mt@ == compsv.last());
                }
                let ghost m_final = lines_model(out@);
                out.push(
                    Line {
                        raw: s.clone(),
                        kind: LineKind::Command,
                        match_text: Some(mt),
                        parent: par,
                        synthetic: false,
                    },
                );
                proof {
                    assert(set_add_path(m_final, opt_int(par), compsv, kk as int) == (
                        m_final,
                        opt_int(par),
                    ));
                    assert(set_add_path(m_start, None, compsv, 0) == (m_final, opt_int(par)));
                    assert(!is_comment_line(s@) && !is_blank(s@));
                    assert(lines_model(out@) =~= set_step(m_prev, ls[i as int]));
                }
            }
        }
        i = i + 1;
    }
    let children = build_children(&out);
    let c = ParsedConfig { lines: out, children };
    proof {
        assert(c.model() == set_model(ls));
        assert(parents_ok(c.model()));
    }
    c
}

/// Parse a document under the indentation grammar.
pub fn parse_indent(lines: &Vec<String>) -> (c: ParsedConfig)
    ensures
        c.wf(),
        c.model() == ind_model(lines.deep_view()),
{
    let ghost ls = lines.deep_view();
    let n = lines.len();
    let mut out: Vec<Line> = Vec::new();
    let mut info: Vec<(bool, usize)> = Vec::new();
    let mut i: usize = 0;
    while i < n
        invariant
            n == lines@.len(),
            ls == lines.deep_view(),
            i <= n,
            out@.len() == i,
            info@.len() == i,
            forall|k: int| 0 <= k < i ==> #[trigger] out@[k]@ == ind_line_model(ls, k),
            forall|k: int|
                0 <= k < i
                    ==> (#[trigger] info@[k]).0 == ind_is_cmd(ls, k) && info@[k].1 as int
                        == indent_of(ls[k]),
            forall|k: int|
                0 <= k < i ==> ((#[trigger] out@[k]@.parent) matches Some(p) ==> 0 <= p < k),
        decreases n - i,
    {
        let s: &String = &lines[i];
        proof {
            assert(ls[i as int] == s@);
        }
        let (a, b) = trim_bounds(s.as_str());
        if a == b {
            out.push(
                Line {
                    raw: s.clone(),
                    kind: LineKind::Command,
                    match_text: None,
                    parent: None,
                    synthetic: false,
                },
            );
            info.push((false, a));
            proof {
                assert(is_blank(ls[i as int]));
                assert(out@[i as int]@ == ind_line_model(ls, i as int));
            }
        } else if is_marker_char(s.as_str().get_char(a)) {
            let mut m: usize = a;
            while m < b && is_marker_char(s.as_str().get_char(m))
                invariant
                    a <= m <= b <= s@.len(),
                    forall|j: int| a <= j < m ==> is_comment_marker(s@[j]),
                decreases b - m,
            {
                m = m + 1;
            }
            let mut m2: usize = m;
            while m2 < b && is_ws_char(s.as_str().get_char(m2))
                invariant
                    m <= m2 <= b <= s@.len(),
                    forall|j: int| m <= j < m2 ==> is_ws(s@[j]),
                decreases b - m2,
            {
                m2 = m2 + 1;
            }
            let body = s.as_str().substring_char(m2, b).to_owned();
            proof {
                let l = ls[i as int];
                let t = trimmed(l);
                assert(t == l.subrange(a as int, b as int));
                assert(t[0] == l[a as int]);
                assert(is_comment_line(l));
                assert forall|j: int| 0 <= j < m - a implies is_comment_marker(t[j]) by {
                    assert(t[j] == l[a + j]);
                }
                if m < b {
                    assert(t[m - a] == l[m as int]);
                }
                lemma_lead_marks_is(t, m - a);
                let r = t.skip(m - a);
                assert(r =~= l.subrange(m as int, b as int));
                assert forall|j: int| 0 <= j < m2 - m implies is_ws(r[j]) by {
                    assert(r[j] == l[m + j]);
                }
                if m2 < b {
                    assert(r[m2 - m] == l[m2 as int]);
                }
                lemma_lead_ws_is(r, m2 - m);
                assert(comment_body(l) =~= l.subrange(m2 as int, b as int));
                assert(body@ == comment_body(l));
            }
            out.push(
                Line {
                    raw: s.clone(),
                    kind: LineKind::Comment,
                    match_text: Some(body),
                    parent: None,
                    synthetic: false,
                },
            );
            info.push((false, a));
            proof {
                assert(out@[i as int]@ == ind_line_model(ls, i as int));
            }
        } else {
            let mt = s.as_str().substring_char(a, b).to_owned();
            proof {
                let l = ls[i as int];
                assert(trimmed(l) == l.subrange(a as int, b as int));
                assert(trimmed(l)[0] == l[a as int]);
                assert(ind_is_cmd(ls, i as int));
                assert(indent_of(l) == a as int);
            }
            let mut parent: Option<usize> = None;
            let mut j: usize = i;
            while j > 0 && parent.is_none()
                invariant
                    j <= i < n,
                    n == ls.len(),
                    info@.len() == i,
                    forall|k: int|
                        0 <= k < i
                            ==> (#[trigger] info@[k]).0 == ind_is_cmd(ls, k) && info@[k].1 as int
                                == indent_of(ls[k]),
                    indent_of(ls[i as int]) == a as int,
                    match parent {
                        None => ind_par_scan(ls, i as int, i - 1) == ind_par_scan(
                            ls,
                            i as int,
                            j - 1,
                        ),
                        Some(p) => ind_par_scan(ls, i as int, i - 1) == Some(p as int) && p < i,
                    },
                decreases j,
            {
                let k = j - 1;
                let pr = info[k];
                if pr.0 && pr.1 < a {
                    parent = Some(k);
                    proof {
                        assert(ind_par_scan(ls, i as int, k as int) == Some(k as int));
                    }
                } else {
                    proof {
                        assert(ind_par_scan(ls, i as int, k as int) == ind_par_scan(
                            ls,
                            i as int,
                            k as int - 1,
                        ));
                    }
                }
                j = k;
            }
            proof {
                if parent is None {
                    assert(ind_par_scan(ls, i as int, i - 1) == ind_par_scan(ls, i as int, -1));
                }
            }
            out.push(
                Line {
                    raw: s.clone(),
                    kind: LineKind::Command,
                    match_text: Some(mt),
                    parent,
                    synthetic: false,
                },
            );
            info.push((true, a));
            proof {
                assert(out@[i as int]@ == ind_line_model(ls, i as int));
            }
        }
        i = i + 1;
    }
    let children = build_children(&out);
    let c = ParsedConfig { lines: out, children };
    proof {
        assert(c.model() =~= ind_model(ls));
        assert(parents_ok(c.model()));
    }
    c
}

// ---------- dialect detection ----------

/// A line that takes part in detection and nesting: neither blank nor a
/// comment.
pub open spec fn significant(l: Seq<char>) -> bool {
    !is_blank(l) && !is_comment_line(l)
}

/// Index of the first significant line at or after `i`, or `ls.len()`.
pub open spec fn first_sig(ls: Seq<Seq<char>>, i: int) -> int
    decreases ls.len() - i,
{
    if !(0 <= i < ls.len()) {
        ls.len() as int
    } else if significant(ls[i]) {
        i
    } else {
        first_sig(ls, i + 1)
    }
}

/// Content-based dialect detection: the first significant line decides.
/// A `set `-prefixed statement means the flattened dialect; a brace-opened or
/// brace-closing or semicolon-terminated statement means the brace dialect;
/// anything else is read as the indentation family, reported as its most
/// common member.
pub open spec fn detect_spec(ls: Seq<Seq<char>>) -> DialectKind {
    let i = first_sig(ls, 0);
    if !(0 <= i < ls.len()) {
        DialectKind::CiscoIos
    } else {
        let t = trimmed(ls[i]);
        if is_set_line(t) {
            DialectKind::JuniperJunosSet
        } else if is_opener(t) || is_closer(t) || (t.len() > 0 && t[t.len() - 1] == ';') {
            DialectKind::JuniperJunos
        } else {
            DialectKind::CiscoIos
        }
    }
}

/// The model of a parsed document: lines split, dialect detected, and the
/// matching grammar applied.
pub open spec fn parse_model(s: Seq<char>) -> Seq<LineModel> {
    let ls = split_lines_spec(s);
    match detect_spec(ls) {
        DialectKind::JuniperJunosSet => set_model(ls),
        DialectKind::JuniperJunos => br_model(ls),
        _ => ind_model(ls),
    }
}

/// Detect which dialect a document uses.
pub fn detect_dialect(lines: &Vec<String>) -> (d: DialectKind)
    ensures
        d == detect_spec(lines.deep_view()),
{
    let ghost ls = lines.deep_view();
    let n = lines.len();
    let mut i: usize = 0;
    let mut res: Option<DialectKind> = None;
    while i < n && res.is_none()
        invariant
            n == ls.len(),
            ls == lines.deep_view(),
            i <= n,
            match res {
                None => first_sig(ls, 0) == first_sig(ls, i as int),
                Some(d) => d == detect_spec(ls),
            },
        decreases n - i,
    {
        let s: &String = &lines[i];
        proof {
            assert(ls[i as int] == s@);
        }
        let (a, b) = trim_range(s.as_str(), 0, s.as_str().unicode_len());
        proof {
            assert(s@.subrange(0, s@.len() as int) =~= s@);
            assert(trimmed(s@) == s@.subrange(a as int, b as int));
        }
        let ghost t = trimmed(s@);
        if a == b {
            proof {
                assert(is_blank(s@));
                assert(first_sig(ls, i as int) == first_sig(ls, i + 1));
            }
        } else if is_marker_char(s.as_str().get_char(a)) {
            proof {
                assert(t[0] == s@[a as int]);
                assert(is_comment_line(s@));
                assert(first_sig(ls, i as int) == first_sig(ls, i + 1));
            }
        } else {
            proof {
                assert(t[0] == s@[a as int]);
                assert(significant(s@));
                assert(first_sig(ls, 0) == i as int);
            }
            let is_set = b - a >= 4 && char_eq(s.as_str().get_char(a), 's') && char_eq(
                s.as_str().get_char(a + 1),
                'e',
            ) && char_eq(s.as_str().get_char(a + 2), 't') && char_eq(
                s.as_str().get_char(a + 3),
                ' ',
            );
            proof {
                if b - a >= 4 {
                    assert(t[1] == s@[a + 1]);
                    assert(t[2] == s@[a + 2]);
                    assert(t[3] == s@[a + 3]);
                }
                assert(is_set == is_set_line(t));
            }
            if is_set {
                res = Some(DialectKind::JuniperJunosSet);
            } else {
                let last = s.as_str().get_char(b - 1);
                proof {
                    assert(t[t.len() - 1] == s@[b - 1]);
                }
                if char_eq(last, '{') || (b - a == 1 && char_eq(last, '}')) || char_eq(last, ';') {
                    res = Some(DialectKind::JuniperJunos);
                } else {
                    res = Some(DialectKind::CiscoIos);
                }
            }
        }
        i = i + 1;
    }
    match res {
        Some(d) => d,
        None => {
            proof {
                assert(first_sig(ls, n as int) == n as int);
                assert(!(0 <= first_sig(ls, 0) < ls.len()));
            }
            DialectKind::CiscoIos
        },
    }
}

/// Detect the dialect of a text and parse it. Parsing is total: every input,
/// well formed or not, yields a well-formed tree.
pub fn parse_with_detect(text: &str) -> (r: (DialectKind, ParsedConfig))
    ensures
        r.0 == detect_spec(split_lines_spec(text@)),
        r.1.wf(),
        r.1.model() == parse_model(text@),
{
    let lines = split_lines(text);
    let d = detect_dialect(&lines);
    let c = match d {
        DialectKind::JuniperJunosSet => parse_set(&lines),
        DialectKind::JuniperJunos => parse_brace(&lines),
        DialectKind::CiscoIos => parse_indent(&lines),
        DialectKind::CiscoNxos => parse_indent(&lines),
        DialectKind::AristaEos => parse_indent(&lines),
    };
    (d, c)
}

impl ParsedConfig {
    /// Parse a text with dialect detection, keeping only the tree.
    pub fn from_text(text: &str) -> (c: ParsedConfig)
        ensures
            c.wf(),
            c.model() == parse_model(text@),
    {
        let r = parse_with_detect(text);
        r.1
    }
}

// ---------- building the child lists ----------

/// Compute, for every line, the ascending list of its children.
pub fn build_children(lines: &Vec<Line>) -> (children: Vec<Vec<usize>>)
    ensures
        children@.len() == lines@.len(),
        forall|p: int, k: int|
            0 <= p < children@.len() && 0 <= k < children@[p]@.len()
                ==> #[trigger] children@[p]@[k] < lines@.len()
                    && lines@[children@[p]@[k] as int]@.parent == Some(p),
        forall|p: int, k1: int, k2: int|
            0 <= p < children@.len() && 0 <= k1 < k2 < children@[p]@.len()
                ==> #[trigger] children@[p]@[k1] < #[trigger] children@[p]@[k2],
        forall|i: int|
            0 <= i < lines@.len()
                ==> ((#[trigger] lines@[i]@.parent) matches Some(p)
                    ==> 0 <= p < lines@.len() ==> children@[p]@.contains(i as usize)),
{
    let n = lines.len();
    let mut children: Vec<Vec<usize>> = Vec::new();
    let mut p: usize = 0;
    while p < n
        invariant
            n == lines@.len(),
            p <= n,
            children@.len() == p,
            forall|q: int, k: int|
                0 <= q < p && 0 <= k < children@[q]@.len()
                    ==> #[trigger] children@[q]@[k] < lines@.len()
                        && lines@[children@[q]@[k] as int]@.parent == Some(q),
            forall|q: int, k1: int, k2: int|
                0 <= q < p && 0 <= k1 < k2 < children@[q]@.len()
                    ==> #[trigger] children@[q]@[k1] < #[trigger] children@[q]@[k2],
            forall|q: int, i: int|
                0 <= q < p && 0 <= i < lines@.len() && lines@[i]@.parent == Some(q)
                    ==> children@[q]@.contains(i as usize),
        decreases n - p,
    {
        let mut kids: Vec<usize> = Vec::new();
        let mut i: usize = 0;
        while i < n
            invariant
                n == lines@.len(),
                i <= n,
                p < n,
                forall|k: int|
                    0 <= k < kids@.len()
                        ==> #[trigger] kids@[k] < i && lines@[kids@[k] as int]@.parent == Some(
                        p as int,
                    ),
                forall|k1: int, k2: int|
                    0 <= k1 < k2 < kids@.len() ==> #[trigger] kids@[k1] < #[trigger] kids@[k2],
                forall|j: int|
                    0 <= j < i && lines@[j]@.parent == Some(p as int) ==> kids@.contains(
                        j as usize,
                    ),
            decreases n - i,
        {
            let hit = match lines[i].parent {
                Some(q) => q == p,
                None => false,
            };
            if hit {
                let ghost old_kids = kids@;
                kids.push(i);
                proof {
                    assert(lines@[i as int]@.parent == Some(p as int));
                    assert(kids@ == old_kids.push(i));
                    assert(kids@[kids@.len() - 1] == i);
                    assert forall|j: int|
                        0 <= j < i + 1 && lines@[j]@.parent == Some(p as int) implies kids@.contains(
                        j as usize,
                    ) by {
                        if j < i {
                            assert(old_kids.contains(j as usize));
                            let k = choose|k: int|
                                0 <= k < old_kids.len() && old_kids[k] == j as usize;
                            assert(kids@[k] == j as usize);
                        } else {
                            assert(kids@[kids@.len() - 1] == j as usize);
                        }
                    }
                }
            } else {
                proof {
                    assert(lines@[i as int]@.parent != Some(p as int));
                }
            }
            i = i + 1;
        }
        children.push(kids);
        p = p + 1;
    }
    children
}

} // verus!
