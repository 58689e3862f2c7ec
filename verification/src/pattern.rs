//! The pattern-query mini-language: levels are joined by `||`, a level may
//! hold the terminal descend-all operator `|>>|`, and a level prefixed with
//! `|#|` targets comment lines. Every fragment is compiled as a regular
//! expression anchored to the whole line.
use crate::dialect::{trim_range, trimmed};
use vstd::prelude::*;

verus! {

/// Whether the outside regex engine accepts `pattern` as a valid regular
/// expression: a function of the pattern string alone.
pub uninterp spec fn regex_compiles(pattern: Seq<char>) -> bool;

/// Whether the regular expression compiled from `pattern` matches `text`: a
/// function of the two strings alone.
pub uninterp spec fn regex_accepts(pattern: Seq<char>, text: Seq<char>) -> bool;

/// Relies on `regex::Regex::new`: whether a pattern compiles depends on the
/// pattern string alone; on failure the engine's error text is returned.
#[verifier::external_body]
fn regex_compile_error(pattern: &str) -> (r: Option<String>)
    ensures
        (r is None) == regex_compiles(pattern@),
{
    regex::Regex::new(pattern).err().map(|e| e.to_string())
}

/// Relies on `regex::Regex::new` and `regex::Regex::is_match`: whether a
/// compiled pattern matches a text depends on the pattern and the text alone.
#[verifier::external_body]
fn regex_is_match_raw(pattern: &str, text: &str) -> (r: bool)
    requires
        regex_compiles(pattern@),
    ensures
        r == regex_accepts(pattern@, text@),
{
    match regex::Regex::new(pattern) {
        Ok(re) => re.is_match(text),
        Err(_) => false,
    }
}

/// Run a compiled fragment against a line's match text.
pub fn fragment_matches(fragment: &String, text: &String) -> (r: bool)
    requires
        regex_compiles(fragment@),
    ensures
        r == regex_accepts(fragment@, text@),
{
    regex_is_match_raw(fragment.as_str(), text.as_str())
}

/// The error type of the library: bad arguments, or a query fragment the
/// regex engine refused (the raw pattern string and the engine's message).
#[derive(Debug)]
pub enum CfgcutError {
    InvalidArguments(String),
    Pattern(String, String),
}

/// What a match step targets: command lines (closing lines included) or
/// comment lines.
#[derive(Clone, Copy, Debug, PartialEq, Eq, Structural)]
pub enum MatchTarget {
    Command,
    Comment,
}

/// The mathematical model of one pattern segment; fragments are stored
/// already anchored.
pub ghost enum SegModel {
    M { fragment: Seq<char>, target: MatchTarget },
    D,
}

/// One compiled pattern segment: a regex step, or the descend-all marker.
pub enum PatternSegment {
    Match { fragment: String, target: MatchTarget },
    DescendAll,
}

impl View for PatternSegment {
    type V = SegModel;

    open spec fn view(&self) -> SegModel {
        match self {
            PatternSegment::Match { fragment, target } => SegModel::M {
                fragment: fragment@,
                target: *target,
            },
            PatternSegment::DescendAll => SegModel::D,
        }
    }
}

/// A segment whose fragment the engine accepts.
pub open spec fn seg_wf(g: SegModel) -> bool {
    match g {
        SegModel::M { fragment, .. } => regex_compiles(fragment),
        SegModel::D => true,
    }
}

/// Whether every match fragment of a segment list compiles.
pub open spec fn all_compile(gs: Seq<SegModel>) -> bool {
    forall|k: int| 0 <= k < gs.len() ==> seg_wf(#[trigger] gs[k])
}

/// A compiled pattern: an ordered list of segments.
pub struct Pattern {
    pub segments: Vec<PatternSegment>,
}

impl Pattern {
    pub open spec fn model(&self) -> Seq<SegModel> {
        Seq::new(self.segments@.len(), |k: int| self.segments@[k]@)
    }

    pub open spec fn wf(&self) -> bool {
        all_compile(self.model())
    }
}

// ---------- the anchoring policy ----------

/// A fragment trimmed and anchored to the whole line: `^(?:` ... `)` is
/// wrapped around it unless it already starts with `^`, and `$` is appended
/// unless it already ends with `$`.
pub open spec fn anchored(fr: Seq<char>) -> Seq<char> {
    let p = trimmed(fr);
    let q = if p.len() > 0 && p[0] == '^' {
        p
    } else {
        "^(?:"@ + p + ")"@
    };
    if p.len() > 0 && p[p.len() - 1] == '$' {
        q
    } else {
        q + "$"@
    }
}

// ---------- splitting a pattern string ----------

/// A level separator `||` at position `j`.
pub open spec fn sep_at(s: Seq<char>, j: int) -> bool {
    0 <= j && j + 1 < s.len() && s[j] == '|' && s[j + 1] == '|'
}

/// Position of the first level separator, or `s.len()` if there is none.
pub open spec fn first_sep(s: Seq<char>) -> nat
    decreases s.len(),
{
    if s.len() == 0 {
        0
    } else if sep_at(s, 0) {
        0
    } else {
        1 + first_sep(s.skip(1))
    }
}

pub proof fn lemma_first_sep_is(s: Seq<char>, k: int)
    requires
        0 <= k <= s.len(),
        forall|j: int| 0 <= j < k ==> !sep_at(s, j),
        k == s.len() || sep_at(s, k),
    ensures
        first_sep(s) == k,
    decreases k,
{
    if k == 0 {
    } else {
        assert(!sep_at(s, 0));
        assert forall|j: int| 0 <= j < k - 1 implies !sep_at(s.skip(1), j) by {
            if sep_at(s.skip(1), j) {
                assert(s.skip(1)[j] == s[j + 1] && s.skip(1)[j + 1] == s[j + 2]);
                assert(sep_at(s, j + 1));
            }
        }
        if k < s.len() {
            assert(s.skip(1)[k - 1] == s[k] && s.skip(1)[k] == s[k + 1]);
            assert(sep_at(s.skip(1), k - 1));
        }
        lemma_first_sep_is(s.skip(1), k - 1);
    }
}

/// The `||`-separated levels of a pattern string.
pub open spec fn split_levels(s: Seq<char>) -> Seq<Seq<char>>
    decreases s.len(),
{
    let j = first_sep(s) as int;
    if j + 1 >= s.len() {
        seq![s]
    } else {
        seq![s.take(j)] + split_levels(s.skip(j + 2))
    }
}

/// The descend-all operator `|>>|` at position `j`.
pub open spec fn desc_at(s: Seq<char>, j: int) -> bool {
    0 <= j && j + 3 < s.len() && s[j] == '|' && s[j + 1] == '>' && s[j + 2] == '>' && s[j + 3]
        == '|'
}

/// Position of the first descend-all operator, or `s.len()` if there is none.
pub open spec fn first_desc(s: Seq<char>) -> nat
    decreases s.len(),
{
    if s.len() == 0 {
        0
    } else if desc_at(s, 0) {
        0
    } else {
        1 + first_desc(s.skip(1))
    }
}

pub proof fn lemma_first_desc_is(s: Seq<char>, k: int)
    requires
        0 <= k <= s.len(),
        forall|j: int| 0 <= j < k ==> !desc_at(s, j),
        k == s.len() || desc_at(s, k),
    ensures
        first_desc(s) == k,
    decreases k,
{
    if k == 0 {
    } else {
        assert(!desc_at(s, 0));
        assert forall|j: int| 0 <= j < k - 1 implies !desc_at(s.skip(1), j) by {
            if desc_at(s.skip(1), j) {
                assert(s.skip(1)[j] == s[j + 1]);
                assert(s.skip(1)[j + 1] == s[j + 2]);
                assert(s.skip(1)[j + 2] == s[j + 3]);
                assert(s.skip(1)[j + 3] == s[j + 4]);
                assert(desc_at(s, j + 1));
            }
        }
        if k < s.len() {
            assert(s.skip(1)[k - 1] == s[k]);
            assert(s.skip(1)[k] == s[k + 1]);
            assert(s.skip(1)[k + 1] == s[k + 2]);
            assert(s.skip(1)[k + 2] == s[k + 3]);
            assert(desc_at(s.skip(1), k - 1));
        }
        lemma_first_desc_is(s.skip(1), k - 1);
    }
}

/// The segments of one level: leading fragments before each descend-all
/// operator, the operator itself, and a final comment or command fragment.
pub open spec fn level_segments(s: Seq<char>) -> Seq<SegModel>
    decreases s.len(),
{
    if s.len() == 0 {
        Seq::empty()
    } else {
        let j = first_desc(s) as int;
        if j + 3 < s.len() {
            let head = if trimmed(s.take(j)).len() > 0 {
                seq![
                    SegModel::M { fragment: anchored(s.take(j)), target: MatchTarget::Command },
                ]
            } else {
                Seq::<SegModel>::empty()
            };
            head + seq![SegModel::D] + level_segments(s.skip(j + 4))
        } else if s.len() >= 3 && s[0] == '|' && s[1] == '#' && s[2] == '|' {
            seq![
                SegModel::M { fragment: anchored(s.skip(3)), target: MatchTarget::Comment },
            ]
        } else if trimmed(s).len() > 0 {
            seq![
                SegModel::M { fragment: anchored(s), target: MatchTarget::Command },
            ]
        } else {
            Seq::empty()
        }
    }
}

/// The segments of a list of levels, flattened in order.
pub open spec fn segs_of_levels(lvs: Seq<Seq<char>>, i: int) -> Seq<SegModel>
    decreases lvs.len() - i,
{
    if !(0 <= i < lvs.len()) {
        Seq::empty()
    } else {
        level_segments(lvs[i]) + segs_of_levels(lvs, i + 1)
    }
}

/// The model of a whole compiled pattern string.
pub open spec fn pattern_spec(raw: Seq<char>) -> Seq<SegModel> {
    segs_of_levels(split_levels(raw), 0)
}

// ---------- the executable compiler ----------

/// Compute the `||`-separated level regions of a pattern string.
fn split_levels_exec(s: &str) -> (v: Vec<(usize, usize)>)
    ensures
        v@.len() == split_levels(s@).len(),
        forall|k: int|
            0 <= k < v@.len()
                ==> (#[trigger] v@[k]).0 <= v@[k].1 <= s@.len() && split_levels(s@)[k]
                    == s@.subrange(v@[k].0 as int, v@[k].1 as int),
{
    let n = s.unicode_len();
    let mut v: Vec<(usize, usize)> = Vec::new();
    let ghost mut vq: Seq<Seq<char>> = Seq::empty();
    let mut pos: usize = 0;
    let mut done = false;
    proof {
        assert(s@.skip(0) =~= s@);
        assert(vq + split_levels(s@.skip(0)) =~= split_levels(s@));
    }
    while !done
        invariant
            n == s@.len(),
            pos <= n,
            v@.len() == vq.len(),
            forall|k: int|
                0 <= k < v@.len()
                    ==> (#[trigger] v@[k]).0 <= v@[k].1 <= s@.len() && vq[k] == s@.subrange(
                    v@[k].0 as int,
                    v@[k].1 as int,
                ),
            if done {
                vq =~= split_levels(s@)
            } else {
                vq + split_levels(s@.skip(pos as int)) =~= split_levels(s@)
            },
        decreases n - pos + (if done {
            0int
        } else {
            1int
        }),
    {
        let mut j: usize = pos;
        while j < n && !(n - j > 1 && crate::dialect::char_eq(s.get_char(j), '|')
            && crate::dialect::char_eq(s.get_char(j + 1), '|'))
            invariant
                pos <= j <= n,
                n == s@.len(),
                forall|q: int| pos <= q < j ==> !sep_at(s@, q),
            decreases n - j,
        {
            j = j + 1;
        }
        let ghost rem = s@.skip(pos as int);
        proof {
            assert forall|q: int| 0 <= q < j - pos implies !sep_at(rem, q) by {
                if sep_at(rem, q) {
                    assert(rem[q] == s@[pos + q] && rem[q + 1] == s@[pos + q + 1]);
                    assert(sep_at(s@, pos + q));
                }
            }
            if j < n {
                assert(rem[j - pos] == s@[j as int] && rem[j - pos + 1] == s@[j + 1]);
                assert(sep_at(rem, j - pos));
            }
            lemma_first_sep_is(rem, j - pos);
        }
        v.push((pos, j));
        proof {
            vq = vq.push(s@.subrange(pos as int, j as int));
            assert(rem.take(j - pos) =~= s@.subrange(pos as int, j as int));
        }
        if n - j > 1 {
            proof {
                assert(split_levels(rem) =~= seq![rem.take(j - pos)] + split_levels(
                    rem.skip(j - pos + 2),
                ));
                assert(rem.skip(j - pos + 2) =~= s@.skip(j + 2));
            }
            pos = j + 2;
        } else {
            proof {
                assert(j == n);
                assert(rem =~= s@.subrange(pos as int, n as int));
                assert(split_levels(rem) =~= seq![rem]);
            }
            done = true;
        }
    }
    v
}

/// Build one anchored match segment from the fragment region `[lo, hi)` of
/// the raw pattern, refusing fragments the engine cannot compile.
fn make_match_segment(raw: &str, lo: usize, hi: usize, target: MatchTarget) -> (r: Result<
    PatternSegment,
    CfgcutError,
>)
    requires
        lo <= hi <= raw@.len(),
    ensures
        match r {
            Ok(seg) => seg@ == (SegModel::M {
                fragment: anchored(raw@.subrange(lo as int, hi as int)),
                target,
            }) && seg_wf(seg@),
            Err(e) => !regex_compiles(anchored(raw@.subrange(lo as int, hi as int))) && (
            e matches CfgcutError::Pattern(rs, _) && rs@ == raw@),
        },
{
    let ghost fr = raw@.subrange(lo as int, hi as int);
    let (a, b) = trim_range(raw, lo, hi);
    let p = raw.substring_char(a, b);
    proof {
        assert(p@ == trimmed(fr));
    }
    let starts_caret = a < b && crate::dialect::char_eq(raw.get_char(a), '^');
    let ends_dollar = a < b && crate::dialect::char_eq(raw.get_char(b - 1), '$');
    proof {
        let t = trimmed(fr);
        if a < b {
            assert(t[0] == raw@[a as int]);
            assert(t[t.len() - 1] == raw@[b - 1]);
        }
        assert(starts_caret == (t.len() > 0 && t[0] == '^'));
        assert(ends_dollar == (t.len() > 0 && t[t.len() - 1] == '$'));
    }
    let mut f = String::new();
    if starts_caret {
        f.append(p);
    } else {
        f.append("^(?:");
        f.append(p);
        f.append(")");
    }
    if !ends_dollar {
        f.append("$");
    }
    proof {
        assert(f@ =~= anchored(fr));
    }
    match regex_compile_error(f.as_str()) {
        None => Ok(PatternSegment::Match { fragment: f, target }),
        Some(msg) => Err(CfgcutError::Pattern(raw.to_owned(), msg)),
    }
}

impl Pattern {
    /// Compile a raw pattern string. Fails when a fragment is not a valid
    /// regular expression, or when the pattern holds no segment at all.
    #[verifier::rlimit(100)]
    pub fn parse(raw: &str) -> (r: Result<Pattern, CfgcutError>)
        ensures
            match r {
                Ok(p) => p.model() == pattern_spec(raw@) && p.wf() && p.model().len() > 0,
                Err(e) => match e {
                    CfgcutError::Pattern(rs, _) => rs@ == raw@ && !all_compile(pattern_spec(raw@)),
                    CfgcutError::InvalidArguments(_) => all_compile(pattern_spec(raw@))
                        && pattern_spec(raw@).len() == 0,
                },
            },
    {
        let ghost lvs = split_levels(raw@);
        let levels = split_levels_exec(raw);
        let mut segments: Vec<PatternSegment> = Vec::new();
        let mut li: usize = 0;
        proof {
            assert(Seq::new(segments@.len(), |k: int| segments@[k]@) + segs_of_levels(lvs, 0)
                =~= pattern_spec(raw@));
        }
        while li < levels.len()
            invariant
                lvs == split_levels(raw@),
                levels@.len() == lvs.len(),
                forall|k: int|
                    0 <= k < levels@.len()
                        ==> (#[trigger] levels@[k]).0 <= levels@[k].1 <= raw@.len() && lvs[k]
                            == raw@.subrange(levels@[k].0 as int, levels@[k].1 as int),
                li <= levels@.len(),
                Seq::new(segments@.len(), |k: int| segments@[k]@) + segs_of_levels(lvs, li as int)
                    =~= pattern_spec(raw@),
                forall|k: int| 0 <= k < segments@.len() ==> seg_wf(#[trigger] segments@[k]@),
            decreases levels@.len() - li,
        {
            let (mut lo, hi) = (levels[li].0, levels[li].1);
            proof {
                assert(level_segments(raw@.subrange(lo as int, hi as int)) + segs_of_levels(
                    lvs,
                    li as int + 1,
                ) =~= segs_of_levels(lvs, li as int));
            }
            let mut level_done = false;
            while !level_done
                invariant
                    lo <= hi <= raw@.len(),
                    Seq::new(segments@.len(), |k: int| segments@[k]@) + (if level_done {
                        Seq::<SegModel>::empty()
                    } else {
                        level_segments(raw@.subrange(lo as int, hi as int))
                    }) + segs_of_levels(lvs, li as int + 1) =~= pattern_spec(raw@),
                    forall|k: int| 0 <= k < segments@.len() ==> seg_wf(#[trigger] segments@[k]@),
                decreases hi - lo + (if level_done {
                    0int
                } else {
                    1int
                }),
            {
                let ghost rem = raw@.subrange(lo as int, hi as int);
                let ghost segs_before = Seq::new(segments@.len(), |k: int| segments@[k]@);
                if lo == hi {
                    proof {
                        assert(level_segments(rem) =~= Seq::<SegModel>::empty());
                    }
                    level_done = true;
                } else {
                    // look for the first descend-all operator
                    let mut j: usize = lo;
                    while j < hi && !(hi - j > 3 && crate::dialect::char_eq(raw.get_char(j), '|')
                        && crate::dialect::char_eq(raw.get_char(j + 1), '>')
                        && crate::dialect::char_eq(raw.get_char(j + 2), '>')
                        && crate::dialect::char_eq(raw.get_char(j + 3), '|'))
                        invariant
                            lo <= j <= hi <= raw@.len(),
                            forall|q: int| 0 <= q < j - lo ==> !desc_at(rem, q),
                            rem == raw@.subrange(lo as int, hi as int),
                        decreases hi - j,
                    {
                        proof {
                            if desc_at(rem, j - lo) {
                                assert(rem[j - lo] == raw@[j as int]);
                                assert(rem[j - lo + 1] == raw@[j + 1]);
                                assert(rem[j - lo + 2] == raw@[j + 2]);
                                assert(rem[j - lo + 3] == raw@[j + 3]);
                                assert(false);
                            }
                        }
                        j = j + 1;
                    }
                    proof {
                        if j < hi {
                            assert(rem[j - lo] == raw@[j as int]);
                            assert(rem[j - lo + 1] == raw@[j + 1]);
                            assert(rem[j - lo + 2] == raw@[j + 2]);
                            assert(rem[j - lo + 3] == raw@[j + 3]);
                            assert(desc_at(rem, j - lo));
                        }
                        lemma_first_desc_is(rem, j - lo);
                    }
                    if j < hi {
                        // a descend-all operator: an optional fragment, then
                        // the marker; the walk goes on after it
                        let (ta, tb) = trim_range(raw, lo, j);
                        proof {
                            assert(rem.take(j - lo) =~= raw@.subrange(lo as int, j as int));
                            assert(trimmed(rem.take(j - lo)) == raw@.subrange(
                                ta as int,
                                tb as int,
                            ));
                        }
                        if ta < tb {
                            let seg = match make_match_segment(raw, lo, j, MatchTarget::Command) {
                                Ok(seg) => seg,
                                Err(e) => {
                                    proof {
                                        let g = SegModel::M {
                                            fragment: anchored(raw@.subrange(lo as int, j as int)),
                                            target: MatchTarget::Command,
                                        };
                                        let full = pattern_spec(raw@);
                                        assert(level_segments(rem)[0] == g);
                                        assert(full[segs_before.len() as int] == g);
                                        assert(!seg_wf(g));
                                        assert(!all_compile(full));
                                    }
                                    return Err(e);
                                },
                            };
                            segments.push(seg);
                        }
                        segments.push(PatternSegment::DescendAll);
                        proof {
                            assert(rem.skip(j - lo + 4) =~= raw@.subrange(j + 4, hi as int));
                            assert(Seq::new(segments@.len(), |k: int| segments@[k]@)
                                =~= segs_before + (if trimmed(rem.take(j - lo)).len() > 0 {
                                seq![
                                    SegModel::M {
                                        fragment: anchored(rem.take(j - lo)),
                                        target: MatchTarget::Command,
                                    },
                                ]
                            } else {
                                Seq::<SegModel>::empty()
                            }) + seq![SegModel::D]);
                        }
                        lo = j + 4;
                    } else {
                        // no descend-all operator: one final fragment
                        let is_comment = hi - lo >= 3 && crate::dialect::char_eq(
                            raw.get_char(lo),
                            '|',
                        ) && crate::dialect::char_eq(raw.get_char(lo + 1), '#')
                            && crate::dialect::char_eq(raw.get_char(lo + 2), '|');
                        proof {
                            if hi - lo >= 3 {
                                assert(rem[0] == raw@[lo as int]);
                                assert(rem[1] == raw@[lo + 1]);
                                assert(rem[2] == raw@[lo + 2]);
                            }
                        }
                        if is_comment {
                            let seg = match make_match_segment(
                                raw,
                                lo + 3,
                                hi,
                                MatchTarget::Comment,
                            ) {
                                Ok(seg) => seg,
                                Err(e) => {
                                    proof {
                                        assert(rem.skip(3) =~= raw@.subrange(lo + 3, hi as int));
                                        let g = SegModel::M {
                                            fragment: anchored(raw@.subrange(lo + 3, hi as int)),
                                            target: MatchTarget::Comment,
                                        };
                                        let full = pattern_spec(raw@);
                                        assert(level_segments(rem)[0] == g);
                                        assert(full[segs_before.len() as int] == g);
                                        assert(!all_compile(full));
                                    }
                                    return Err(e);
                                },
                            };
                            segments.push(seg);
                            proof {
                                assert(rem.skip(3) =~= raw@.subrange(lo + 3, hi as int));
                                assert(Seq::new(segments@.len(), |k: int| segments@[k]@)
                                    =~= segs_before + level_segments(rem));
                            }
                        } else {
                            let (ta, tb) = trim_range(raw, lo, hi);
                            proof {
                                assert(trimmed(rem) == raw@.subrange(ta as int, tb as int));
                            }
                            if ta < tb {
                                let seg = match make_match_segment(
                                    raw,
                                    lo,
                                    hi,
                                    MatchTarget::Command,
                                ) {
                                    Ok(seg) => seg,
                                    Err(e) => {
                                        proof {
                                            let g = SegModel::M {
                                                fragment: anchored(rem),
                                                target: MatchTarget::Command,
                                            };
                                            let full = pattern_spec(raw@);
                                            assert(level_segments(rem)[0] == g);
                                            assert(full[segs_before.len() as int] == g);
                                            assert(!all_compile(full));
                                        }
                                        return Err(e);
                                    },
                                };
                                segments.push(seg);
                                proof {
                                    assert(Seq::new(segments@.len(), |k: int| segments@[k]@)
                                        =~= segs_before + level_segments(rem));
                                }
                            } else {
                                proof {
                                    assert(level_segments(rem) =~= Seq::<SegModel>::empty());
                                }
                            }
                        }
                        level_done = true;
                    }
                }
            }
            li = li + 1;
        }
        if segments.len() == 0 {
            proof {
                assert(pattern_spec(raw@).len() == 0);
            }
            return Err(
                CfgcutError::InvalidArguments(
                    String::from_str("match patterns must not be empty"),
                ),
            );
        }
        let p = Pattern { segments };
        proof {
            assert(p.model() =~= pattern_spec(raw@));
        }
        Ok(p)
    }
}

} // verus!
