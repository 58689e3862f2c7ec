//! Rendering: the retained lines of a document are emitted in ascending
//! document order, redacted on request, with one structured token record per
//! captured sensitive value.
use crate::anonymize::{
    caps_model, plain_caps, scrub_line, AnonModel, Anonymizer, CapModel, TokenCapture, TokenKind,
};
use crate::dialect::{DialectKind, LineKind, LineModel, ParsedConfig};
use vstd::prelude::*;

verus! {

/// One externally reportable token: its category, original and anonymized
/// values, the owning line's ancestor path and 1-based line number, and the
/// document's dialect.
#[derive(Debug, Clone, PartialEq, Eq)]
pub struct TokenRecord {
    pub dialect: DialectKind,
    pub path: Vec<String>,
    pub kind: TokenKind,
    pub original: String,
    pub anonymized: Option<String>,
    pub line: usize,
}

/// The mathematical model of one token record.
pub ghost struct RecModel {
    pub dialect: DialectKind,
    pub path: Seq<Seq<char>>,
    pub kind: TokenKind,
    pub original: Seq<char>,
    pub anonymized: Option<Seq<char>>,
    pub line: int,
}

impl View for TokenRecord {
    type V = RecModel;

    open spec fn view(&self) -> RecModel {
        RecModel {
            dialect: self.dialect,
            path: self.path.deep_view(),
            kind: self.kind,
            original: self.original@,
            anonymized: match self.anonymized {
                Some(ref a) => Some(a@),
                None => None,
            },
            line: self.line as int,
        }
    }
}

pub open spec fn recs_model(v: Seq<TokenRecord>) -> Seq<RecModel> {
    Seq::new(v.len(), |i: int| v[i]@)
}

/// The hierarchical path of a line: the match texts of its ancestors and of
/// the line itself, root first.
pub open spec fn path_spec(m: Seq<LineModel>, i: int) -> Seq<Seq<char>>
    decreases i,
{
    if !(0 <= i < m.len()) {
        Seq::empty()
    } else {
        (match m[i].parent {
            Some(p) => if 0 <= p < i {
                path_spec(m, p)
            } else {
                Seq::<Seq<char>>::empty()
            },
            None => Seq::<Seq<char>>::empty(),
        }) + (match m[i].mtext {
            Some(t) => seq![t],
            None => Seq::<Seq<char>>::empty(),
        })
    }
}

/// Compute the hierarchical path of a line.
pub fn line_path(config: &ParsedConfig, idx: usize) -> (path: Vec<String>)
    requires
        config.wf(),
        idx < config.lines@.len(),
    ensures
        path.deep_view() == path_spec(config.model(), idx as int),
    decreases idx,
{
    let ghost m = config.model();
    let mut path: Vec<String> = match config.lines[idx].parent {
        Some(p) => {
            proof {
                assert(m[idx as int].parent == Some(p as int));
                assert(0 <= (p as int) < idx as int);
            }
            line_path(config, p)
        },
        None => Vec::new(),
    };
    proof {
        if m[idx as int].parent is None {
            assert(path.deep_view() =~= Seq::<Seq<char>>::empty());
        }
    }
    let ghost before = path.deep_view();
    match &config.lines[idx].match_text {
        Some(t) => {
            let tc = t.clone();
            path.push(tc);
            proof {
                assert(m[idx as int].mtext == Some(t@));
                assert(path.deep_view() =~= before.push(t@));
                assert(path.deep_view() =~= path_spec(m, idx as int));
            }
        },
        None => {
            proof {
                assert(m[idx as int].mtext is None);
                assert(path.deep_view() =~= path_spec(m, idx as int));
            }
        },
    }
    path
}

/// The records reported for the captures of line `idx`.
pub open spec fn recs_of(
    d: DialectKind,
    m: Seq<LineModel>,
    idx: int,
    caps: Seq<CapModel>,
) -> Seq<RecModel> {
    caps.map_values(
        |c: CapModel| RecModel {
            dialect: d,
            path: path_spec(m, idx),
            kind: c.kind,
            original: c.original,
            anonymized: c.anonymized,
            line: idx + 1,
        },
    )
}

/// Per-(document, dialect) collector of token records.
pub struct TokenAccumulator {
    pub dialect: DialectKind,
    pub entries: Vec<TokenRecord>,
}

impl TokenAccumulator {
    /// A fresh collector.
    pub fn new(dialect: DialectKind) -> (a: TokenAccumulator)
        ensures
            a.dialect == dialect,
            recs_model(a.entries@) == Seq::<RecModel>::empty(),
    {
        let a = TokenAccumulator { dialect, entries: Vec::new() };
        proof {
            assert(recs_model(a.entries@) =~= Seq::<RecModel>::empty());
        }
        a
    }

    /// Append one record per capture of line `idx`.
    pub fn record(&mut self, config: &ParsedConfig, idx: usize, captures: &Vec<TokenCapture>)
        requires
            config.wf(),
            idx < config.lines@.len(),
        ensures
            final(self).dialect == old(self).dialect,
            recs_model(final(self).entries@) == recs_model(old(self).entries@) + recs_of(
                old(self).dialect,
                config.model(),
                idx as int,
                caps_model(captures@),
            ),
    {
        let ghost m = config.model();
        let ghost target = recs_of(self.dialect, m, idx as int, caps_model(captures@));
        if captures.len() == 0 {
            proof {
                assert(caps_model(captures@) =~= Seq::<CapModel>::empty());
                assert(recs_model(self.entries@) + target =~= recs_model(self.entries@));
            }
            return ;
        }
        proof {
            vstd::std_specs::vec::axiom_spec_len(&config.lines);
        }
        let path = line_path(config, idx);
        let line_no = idx + 1;
        let d = self.dialect;
        let mut ci: usize = 0;
        let ghost recs0 = recs_model(self.entries@);
        while ci < captures.len()
            invariant
                config.wf(),
                m == config.model(),
                idx < config.lines@.len(),
                self.dialect == d,
                path.deep_view() == path_spec(m, idx as int),
                line_no == idx + 1,
                target == recs_of(d, m, idx as int, caps_model(captures@)),
                ci <= captures@.len(),
                target.len() == captures@.len(),
                recs_model(self.entries@) == recs0 + target.take(ci as int),
            decreases captures@.len() - ci,
        {
            let cap = &captures[ci];
            let rec = TokenRecord {
                dialect: d,
                path: path.clone(),
                kind: cap.kind,
                original: cap.original.clone(),
                anonymized: match &cap.anonymized {
                    Some(a) => Some(a.clone()),
                    None => None,
                },
                line: line_no,
            };
            proof {
                vstd::std_specs::vec::axiom_spec_len(captures);
                assert(caps_model(captures@)[ci as int] == captures@[ci as int]@);
                assert(rec@ == target[ci as int]);
            }
            let ghost entries0 = recs_model(self.entries@);
            self.entries.push(rec);
            proof {
                assert(recs_model(self.entries@) =~= entries0.push(target[ci as int]));
                assert(recs_model(self.entries@) =~= recs0 + target.take(ci + 1));
            }
            ci = ci + 1;
        }
        proof {
            assert(target.take(captures@.len() as int) =~= target);
        }
    }

    /// Hand the collected records out.
    pub fn finish(self) -> (r: Vec<TokenRecord>)
        ensures
            recs_model(r@) == recs_model(self.entries@),
    {
        self.entries
    }
}

// ---------- the renderer ----------

/// What one line contributes: its (possibly redacted) text with a line break,
/// the anonymizer state after it, and its captures.
pub open spec fn render_step(
    m: Seq<LineModel>,
    wc: bool,
    anon: bool,
    wt: bool,
    a: AnonModel,
    i: int,
) -> (Seq<char>, AnonModel, Seq<CapModel>) {
    let line = m[i];
    if line.synthetic || (line.kind == LineKind::Comment && !wc) {
        (Seq::empty(), a, Seq::empty())
    } else {
        let is_cmd = line.kind == LineKind::Command;
        let sc = scrub_line(a, line.raw);
        if anon && wt && is_cmd {
            (sc.1 + seq!['\n'], sc.0, sc.2)
        } else if anon {
            (sc.1 + seq!['\n'], sc.0, Seq::empty())
        } else if wt && is_cmd {
            (line.raw + seq!['\n'], a, plain_caps(line.raw))
        } else {
            (line.raw + seq!['\n'], a, Seq::empty())
        }
    }
}

/// The rendered output of the first `i` lines: retained lines in ascending
/// order, with the anonymizer state threaded through and the token records
/// accumulated.
pub open spec fn render_upto(
    m: Seq<LineModel>,
    sel: Seq<bool>,
    wc: bool,
    anon: bool,
    wt: bool,
    d: DialectKind,
    a0: AnonModel,
    i: int,
) -> (Seq<char>, AnonModel, Seq<RecModel>)
    decreases i,
{
    if i <= 0 {
        (Seq::empty(), a0, Seq::empty())
    } else {
        let prev = render_upto(m, sel, wc, anon, wt, d, a0, i - 1);
        if sel[i - 1] {
            let s = render_step(m, wc, anon, wt, prev.1, i - 1);
            (prev.0 + s.0, s.1, prev.2 + recs_of(d, m, i - 1, s.2))
        } else {
            prev
        }
    }
}

/// The whole rendered output of a document.
pub open spec fn render_spec(
    m: Seq<LineModel>,
    sel: Seq<bool>,
    wc: bool,
    anon: bool,
    wt: bool,
    d: DialectKind,
    a0: AnonModel,
) -> (Seq<char>, AnonModel, Seq<RecModel>) {
    render_upto(m, sel, wc, anon, wt, d, a0, m.len() as int)
}

/// Render the retained lines of a document. Comment lines are skipped unless
/// requested; synthetic lines are never rendered directly; redaction and
/// token capture follow the flags, captures being taken only from command
/// lines.
pub fn render_output(
    config: &ParsedConfig,
    indices: &Vec<bool>,
    with_comments: bool,
    anonymize: bool,
    anonymizer: &mut Anonymizer,
    want_tokens: bool,
    tokens: &mut TokenAccumulator,
) -> (buf: String)
    requires
        config.wf(),
        indices@.len() == config.lines@.len(),
    ensures
        ({
            let r = render_spec(
                config.model(),
                indices@,
                with_comments,
                anonymize,
                want_tokens,
                old(tokens).dialect,
                old(anonymizer)@,
            );
            &&& buf@ == r.0
            &&& final(anonymizer)@ == r.1
            &&& final(tokens).dialect == old(tokens).dialect
            &&& recs_model(final(tokens).entries@) == recs_model(old(tokens).entries@) + r.2
        }),
{
    let ghost m = config.model();
    let ghost sel = indices@;
    let ghost a0 = anonymizer@;
    let ghost d = tokens.dialect;
    let ghost recs0 = recs_model(tokens.entries@);
    let mut buf = String::new();
    let n = config.lines.len();
    let mut i: usize = 0;
    proof {
        assert(buf@ =~= Seq::<char>::empty());
        assert(recs_model(tokens.entries@).skip(recs0.len() as int) =~= Seq::<RecModel>::empty());
    }
    while i < n
        invariant
            config.wf(),
            m == config.model(),
            sel == indices@,
            n == config.lines@.len(),
            indices@.len() == config.lines@.len(),
            i <= n,
            tokens.dialect == d,
            recs_model(tokens.entries@).len() >= recs0.len(),
            recs_model(tokens.entries@).take(recs0.len() as int) == recs0,
            ({
                let r = render_upto(m, sel, with_comments, anonymize, want_tokens, d, a0, i as int);
                &&& buf@ == r.0
                &&& anonymizer@ == r.1
                &&& recs_model(tokens.entries@).skip(recs0.len() as int) == r.2
            }),
        decreases n - i,
    {
        let ghost prev = render_upto(m, sel, with_comments, anonymize, want_tokens, d, a0, i as int);
        if indices[i] {
            let line = &config.lines[i];
            proof {
                assert(line@ == m[i as int]);
            }
            let skip_line = line.synthetic || (matches!(line.kind, LineKind::Comment)
                && !with_comments);
            if !skip_line {
                let is_cmd = matches!(line.kind, LineKind::Command);
                let mut captures: Vec<TokenCapture> = Vec::new();
                proof {
                    assert(caps_model(captures@) =~= Seq::<CapModel>::empty());
                }
                let text: String = if anonymize && want_tokens && is_cmd {
                    anonymizer.scrub_with_tokens(&line.raw, &mut captures)
                } else if anonymize {
                    anonymizer.scrub(&line.raw)
                } else if want_tokens && is_cmd {
                    captures = crate::anonymize::collect_plain_tokens(&line.raw);
                    line.raw.clone()
                } else {
                    line.raw.clone()
                };
                let ghost step = render_step(
                    m,
                    with_comments,
                    anonymize,
                    want_tokens,
                    prev.1,
                    i as int,
                );
                proof {
                    assert(caps_model(captures@) == step.2);
                }
                if want_tokens && is_cmd && captures.len() > 0 {
                    tokens.record(config, i, &captures);
                } else {
                    proof {
                        if want_tokens && is_cmd {
                            assert(captures@.len() == 0);
                            assert(caps_model(captures@) =~= Seq::<CapModel>::empty());
                        }
                        assert(recs_of(d, m, i as int, caps_model(captures@)) =~= Seq::<
                            RecModel,
                        >::empty());
                    }
                }
                buf.append(text.as_str());
                buf.append("\n");
                proof {
                    reveal_strlit("\n");
                    assert("\n"@ =~= seq!['\n']);
                    assert(buf@ =~= prev.0 + step.0);
                    assert(recs_model(tokens.entries@).skip(recs0.len() as int) =~= prev.2
                        + recs_of(d, m, i as int, step.2));
                    assert(recs_model(tokens.entries@).take(recs0.len() as int) =~= recs0);
                }
            } else {
                proof {
                    let step = render_step(
                        m,
                        with_comments,
                        anonymize,
                        want_tokens,
                        prev.1,
                        i as int,
                    );
                    assert(step.0 =~= Seq::<char>::empty());
                    assert(buf@ =~= prev.0 + step.0);
                    assert(step.2 =~= Seq::<CapModel>::empty());
                    assert(recs_of(d, m, i as int, step.2) =~= Seq::<RecModel>::empty());
                    assert(prev.2 + recs_of(d, m, i as int, step.2) =~= prev.2);
                }
            }
        }
        i = i + 1;
    }
    buf
}

// ---------- glob detection ----------

/// Whether a path holds one of the glob metacharacters.
pub open spec fn has_glob_char(s: Seq<char>) -> bool {
    exists|j: int| 0 <= j < s.len() && ((#[trigger] s[j]) == '*' || s[j] == '?' || s[j] == '[')
}

/// A path that holds glob metacharacters is handed back as a glob pattern;
/// a plain path is not.
pub fn glob_pattern(path: &str) -> (r: Option<String>)
    ensures
        match r {
            Some(t) => t@ == path@ && has_glob_char(path@),
            None => !has_glob_char(path@),
        },
{
    let n = path.unicode_len();
    let mut j: usize = 0;
    while j < n
        invariant
            n == path@.len(),
            j <= n,
            forall|q: int| 0 <= q < j ==> !((#[trigger] path@[q]) == '*' || path@[q] == '?'
                || path@[q] == '['),
        decreases n - j,
    {
        let c = path.get_char(j);
        if crate::dialect::char_eq(c, '*') || crate::dialect::char_eq(c, '?')
            || crate::dialect::char_eq(c, '[') {
            return Some(path.to_owned());
        }
        j = j + 1;
    }
    None
}

} // verus!
