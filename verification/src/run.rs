//! The library entry point: compile the query patterns, parse each input
//! text, union the retained index sets of all patterns, and render the
//! retained slices in order, with optional redaction and token capture.
use crate::anonymize::{AnonModel, Anonymizer};
use crate::dialect::{detect_spec, parse_model, split_lines_spec, DialectKind, ParsedConfig};
use crate::matcher::{pattern_hit, pattern_sel, MatchAccumulator};
use crate::pattern::{all_compile, pattern_spec, CfgcutError, Pattern};
use crate::render::{recs_model, render_spec, RecModel, TokenAccumulator, TokenRecord};
use vstd::prelude::*;

verus! {

/// Whether comment lines appear in rendered output.
#[derive(Clone, Copy, Debug, PartialEq, Eq, Structural)]
pub enum CommentHandling {
    Exclude,
    Include,
}

/// Whether the caller intends to print the rendered text.
#[derive(Clone, Copy, Debug, PartialEq, Eq, Structural)]
pub enum OutputMode {
    Normal,
    Quiet,
}

/// Whether sensitive values are redacted.
#[derive(Clone, Copy, Debug, PartialEq, Eq, Structural)]
pub enum Anonymization {
    Disabled,
    Enabled,
}

/// Where token records are destined; any destination turns capture on.
#[derive(Debug, Clone)]
pub enum TokenDestination {
    Stdout,
    File(String),
}

/// One request: the pattern strings, the flags, and the input documents as
/// in-memory text in processing order.
#[derive(Debug, Clone)]
pub struct RunRequest {
    pub matches: Vec<String>,
    pub comment_handling: CommentHandling,
    pub output_mode: OutputMode,
    pub anonymization: Anonymization,
    pub inputs: Vec<String>,
    pub token_output: Option<TokenDestination>,
}

/// One result: whether anything matched, the combined rendered text, and the
/// token records of every input.
pub struct RunOutput {
    pub matched: bool,
    pub stdout: String,
    pub tokens: Vec<TokenRecord>,
}

/// Whether every pattern string compiles to a non-empty segment list.
pub open spec fn patterns_ok(ms: Seq<Seq<char>>) -> bool {
    forall|k: int|
        0 <= k < ms.len() ==> all_compile(#[trigger] pattern_spec(ms[k])) && pattern_spec(
            ms[k],
        ).len() > 0
}

/// The retained-index set of one document under a list of patterns: the
/// union over all patterns.
pub open spec fn union_sel(m: Seq<crate::dialect::LineModel>, ms: Seq<Seq<char>>, x: int) -> bool {
    exists|k: int| 0 <= k < ms.len() && pattern_sel(m, #[trigger] pattern_spec(ms[k]), x)
}

/// Whether any pattern matches in one document.
pub open spec fn union_hit(m: Seq<crate::dialect::LineModel>, ms: Seq<Seq<char>>) -> bool {
    exists|k: int| 0 <= k < ms.len() && pattern_hit(m, #[trigger] pattern_spec(ms[k]))
}

/// What one input document contributes to the run.
pub open spec fn file_step(
    ms: Seq<Seq<char>>,
    wc: bool,
    anon: bool,
    wt: bool,
    text: Seq<char>,
    a: AnonModel,
) -> (bool, Seq<char>, AnonModel, Seq<RecModel>) {
    let m = parse_model(text);
    let d = detect_spec(split_lines_spec(text));
    let hit = union_hit(m, ms);
    if hit {
        let sel = Seq::new(m.len(), |x: int| union_sel(m, ms, x));
        let r = render_spec(m, sel, wc, anon, wt, d, a);
        (true, r.0, r.1, if wt {
            r.2
        } else {
            Seq::<RecModel>::empty()
        })
    } else {
        (false, Seq::empty(), a, if wt {
            Seq::<RecModel>::empty()
        } else {
            Seq::<RecModel>::empty()
        })
    }
}

/// Concatenate one file's rendering onto the output so far, separating files
/// by a single line break.
pub open spec fn join_out(out: Seq<char>, rendered: Seq<char>) -> Seq<char> {
    if rendered.len() == 0 {
        out
    } else {
        let sep: Seq<char> = if out.len() > 0 && out[out.len() - 1] != '\n' {
            seq!['\n']
        } else {
            Seq::<char>::empty()
        };
        let tail: Seq<char> = if rendered[rendered.len() - 1] != '\n' {
            seq!['\n']
        } else {
            Seq::<char>::empty()
        };
        out + sep + rendered + tail
    }
}

/// The run over the first `i` input documents: the match flag, the combined
/// output, the anonymizer state, and the collected token records.
pub open spec fn run_upto(
    ms: Seq<Seq<char>>,
    wc: bool,
    anon: bool,
    wt: bool,
    files: Seq<Seq<char>>,
    i: int,
) -> (bool, Seq<char>, AnonModel, Seq<RecModel>)
    decreases i,
{
    if i <= 0 {
        (
            false,
            Seq::empty(),
            AnonModel {
                users: Seq::empty(),
                secrets: Seq::empty(),
                asns: Seq::empty(),
                ips: Seq::empty(),
            },
            Seq::empty(),
        )
    } else {
        let prev = run_upto(ms, wc, anon, wt, files, i - 1);
        let s = file_step(ms, wc, anon, wt, files[i - 1], prev.2);
        (prev.0 || s.0, if s.0 {
            join_out(prev.1, s.1)
        } else {
            prev.1
        }, s.2, prev.3 + s.3)
    }
}

/// The whole run over in-memory inputs.
pub open spec fn run_model(
    ms: Seq<Seq<char>>,
    wc: bool,
    anon: bool,
    wt: bool,
    files: Seq<Seq<char>>,
) -> (bool, Seq<char>, AnonModel, Seq<RecModel>) {
    run_upto(ms, wc, anon, wt, files, files.len() as int)
}

/// Execute a request over its in-memory inputs.
///
/// Succeeds exactly when at least one pattern and one input are given and
/// every pattern compiles to a non-empty segment list; the result then is
/// precisely `run_model` of the request. Errors report bad arguments or the
/// offending pattern string.
pub fn run(request: &RunRequest) -> (r: Result<RunOutput, CfgcutError>)
    ensures
        ({
            let ms = request.matches.deep_view();
            let files = request.inputs.deep_view();
            let wc = request.comment_handling == CommentHandling::Include;
            let anon = request.anonymization == Anonymization::Enabled;
            let wt = request.token_output is Some;
            match r {
                Ok(out) => {
                    &&& ms.len() > 0
                    &&& files.len() > 0
                    &&& patterns_ok(ms)
                    &&& out.matched == run_model(ms, wc, anon, wt, files).0
                    &&& out.stdout@ == run_model(ms, wc, anon, wt, files).1
                    &&& recs_model(out.tokens@) == run_model(ms, wc, anon, wt, files).3
                },
                Err(e) => match e {
                    CfgcutError::Pattern(rs, _) => exists|k: int|
                        0 <= k < ms.len() && rs@ == ms[k] && !all_compile(
                            #[trigger] pattern_spec(ms[k]),
                        ),
                    CfgcutError::InvalidArguments(_) => ms.len() == 0 || files.len() == 0 || exists|
                        k: int,
                    |
                        0 <= k < ms.len() && all_compile(#[trigger] pattern_spec(ms[k]))
                            && pattern_spec(ms[k]).len() == 0,
                },
            }
        }),
{
    let ghost ms = request.matches.deep_view();
    let ghost files = request.inputs.deep_view();
    let wc = matches!(request.comment_handling, CommentHandling::Include);
    let anon = matches!(request.anonymization, Anonymization::Enabled);
    let wt = request.token_output.is_some();
    if request.matches.len() == 0 {
        return Err(
            CfgcutError::InvalidArguments(
                String::from_str("at least one match pattern is required"),
            ),
        );
    }
    if request.inputs.len() == 0 {
        return Err(CfgcutError::InvalidArguments(String::from_str("no input paths provided")));
    }
    let mut patterns: Vec<Pattern> = Vec::new();
    let mut pi: usize = 0;
    while pi < request.matches.len()
        invariant
            ms == request.matches.deep_view(),
            pi <= ms.len(),
            ms.len() == request.matches@.len(),
            patterns@.len() == pi,
            forall|k: int|
                0 <= k < pi ==> (#[trigger] patterns@[k]).model() == pattern_spec(ms[k])
                    && patterns@[k].wf() && patterns@[k].model().len() > 0,
        decreases ms.len() - pi,
    {
        proof {
            assert(request.matches.deep_view()[pi as int] == request.matches@[pi as int]@);
        }
        match Pattern::parse(request.matches[pi].as_str()) {
            Ok(p) => {
                patterns.push(p);
            },
            Err(e) => {
                return Err(e);
            },
        }
        pi = pi + 1;
    }
    proof {
        assert(patterns_ok(ms)) by {
            assert forall|k: int|
                0 <= k < ms.len() implies all_compile(#[trigger] pattern_spec(ms[k]))
                && pattern_spec(ms[k]).len() > 0 by {
                assert(patterns@[k].model() == pattern_spec(ms[k]));
            }
        }
    }
    let mut anonymizer = Anonymizer::new();
    let mut output = String::new();
    let mut matched_any = false;
    let mut tokens: Vec<TokenRecord> = Vec::new();
    let mut fi: usize = 0;
    proof {
        assert(output@ =~= Seq::<char>::empty());
        assert(recs_model(tokens@) =~= Seq::<RecModel>::empty());
    }
    while fi < request.inputs.len()
        invariant
            ms == request.matches.deep_view(),
            files == request.inputs.deep_view(),
            files.len() == request.inputs@.len(),
            fi <= files.len(),
            patterns@.len() == ms.len(),
            forall|k: int|
                0 <= k < ms.len() ==> (#[trigger] patterns@[k]).model() == pattern_spec(ms[k])
                    && patterns@[k].wf() && patterns@[k].model().len() > 0,
            ({
                let u = run_upto(ms, wc, anon, wt, files, fi as int);
                &&& matched_any == u.0
                &&& output@ == u.1
                &&& anonymizer@ == u.2
                &&& recs_model(tokens@) == u.3
            }),
        decreases files.len() - fi,
    {
        let ghost prev = run_upto(ms, wc, anon, wt, files, fi as int);
        proof {
            assert(request.inputs.deep_view()[fi as int] == request.inputs@[fi as int]@);
        }
        let content: &String = &request.inputs[fi];
        let ghost text = content@;
        let (dialect_kind, parsed) = crate::dialect::parse_with_detect(content.as_str());
        let ghost m = parsed.model();
        let mut token_accumulator = TokenAccumulator::new(dialect_kind);
        let mut accumulator = MatchAccumulator::new(&parsed);
        let mut pk: usize = 0;
        while pk < patterns.len()
            invariant
                parsed.wf(),
                m == parsed.model(),
                accumulator.indices@.len() == parsed.lines@.len(),
                patterns@.len() == ms.len(),
                forall|k: int|
                    0 <= k < ms.len() ==> (#[trigger] patterns@[k]).model() == pattern_spec(ms[k])
                        && patterns@[k].wf(),
                pk <= ms.len(),
                accumulator.matched == (exists|k: int|
                    0 <= k < pk && pattern_hit(m, #[trigger] pattern_spec(ms[k]))),
                forall|x: int|
                    #[trigger] accumulator.sel(x) == (exists|k: int|
                        0 <= k < pk && pattern_sel(m, #[trigger] pattern_spec(ms[k]), x)),
            decreases ms.len() - pk,
        {
            let ghost acc_before = accumulator;
            patterns[pk].apply(&parsed, &mut accumulator);
            proof {
                assert forall|x: int|
                    #[trigger] accumulator.sel(x) == (exists|k: int|
                        0 <= k < pk + 1 && pattern_sel(m, #[trigger] pattern_spec(ms[k]), x)) by {
                    if accumulator.sel(x) {
                        if acc_before.sel(x) {
                            let k = choose|k: int|
                                0 <= k < pk && pattern_sel(m, #[trigger] pattern_spec(ms[k]), x);
                            assert(0 <= k < pk + 1 && pattern_sel(m, pattern_spec(ms[k]), x));
                        } else {
                            assert(pattern_sel(m, patterns@[pk as int].model(), x));
                            assert(pattern_sel(m, pattern_spec(ms[pk as int]), x));
                        }
                    } else {
                        assert forall|k: int| 0 <= k < pk + 1 implies !pattern_sel(
                            m,
                            #[trigger] pattern_spec(ms[k]),
                            x,
                        ) by {
                            if pattern_sel(m, pattern_spec(ms[k]), x) {
                                if k < pk {
                                    assert(acc_before.sel(x));
                                    assert(accumulator.sel(x));
                                } else {
                                    assert(accumulator.sel(x));
                                }
                                assert(false);
                            }
                        }
                    }
                }
                assert(accumulator.matched == (exists|k: int|
                    0 <= k < pk + 1 && pattern_hit(m, #[trigger] pattern_spec(ms[k])))) by {
                    if accumulator.matched {
                        if acc_before.matched {
                            let k = choose|k: int|
                                0 <= k < pk && pattern_hit(m, #[trigger] pattern_spec(ms[k]));
                            assert(0 <= k < pk + 1 && pattern_hit(m, pattern_spec(ms[k])));
                        } else {
                            assert(pattern_hit(m, pattern_spec(ms[pk as int])));
                        }
                    } else {
                        assert forall|k: int| 0 <= k < pk + 1 implies !pattern_hit(
                            m,
                            #[trigger] pattern_spec(ms[k]),
                        ) by {
                            if pattern_hit(m, pattern_spec(ms[k])) {
                                if k < pk {
                                    assert(acc_before.matched);
                                }
                                assert(accumulator.matched);
                                assert(false);
                            }
                        }
                    }
                }
            }
            pk = pk + 1;
        }
        proof {
            assert(accumulator.matched == union_hit(m, ms));
            assert forall|x: int| #[trigger] accumulator.sel(x) == (0 <= x < m.len() && union_sel(
                m,
                ms,
                x,
            )) by {
                if accumulator.sel(x) {
                    assert(0 <= x < accumulator.indices@.len());
                }
            }
        }
        if accumulator.matched {
            matched_any = true;
            let rendered = crate::render::render_output(
                &parsed,
                &accumulator.indices,
                wc,
                anon,
                &mut anonymizer,
                wt,
                &mut token_accumulator,
            );
            proof {
                let sel = Seq::new(m.len(), |x: int| union_sel(m, ms, x));
                assert forall|x: int| 0 <= x < m.len() implies accumulator.indices@[x] == sel[x] by {
                    assert(accumulator.sel(x) == (0 <= x < m.len() && union_sel(m, ms, x)));
                    assert(accumulator.sel(x) == (0 <= x < accumulator.indices@.len()
                        && accumulator.indices@[x]));
                }
                assert(accumulator.indices@ =~= sel);
                assert(m == parse_model(text));
                assert(dialect_kind == detect_spec(split_lines_spec(text)));
            }
            if rendered.as_str().unicode_len() > 0 {
                let out_len = output.as_str().unicode_len();
                if out_len > 0 && !crate::dialect::char_eq(
                    output.as_str().get_char(out_len - 1),
                    '\n',
                ) {
                    output.append("\n");
                    proof {
                        reveal_strlit("\n");
                    }
                }
                output.append(rendered.as_str());
                let rlen = rendered.as_str().unicode_len();
                if !crate::dialect::char_eq(rendered.as_str().get_char(rlen - 1), '\n') {
                    output.append("\n");
                    proof {
                        reveal_strlit("\n");
                    }
                }
                proof {
                    reveal_strlit("\n");
                    assert("\n"@ =~= seq!['\n']);
                    assert(output@ =~= join_out(prev.1, rendered@));
                }
            } else {
                proof {
                    assert(rendered@.len() == 0);
                    assert(output@ =~= join_out(prev.1, rendered@));
                }
            }
        }
        if wt {
            let ghost toks_before = recs_model(tokens@);
            let mut recs_v = token_accumulator.finish();
            let ghost radd = recs_model(recs_v@);
            tokens.append(&mut recs_v);
            proof {
                assert(recs_model(tokens@) =~= toks_before + radd);
            }
        }
        proof {
            let s = file_step(ms, wc, anon, wt, files[fi as int], prev.2);
            assert(matched_any == (prev.0 || s.0));
            if !wt {
                assert(prev.3 + s.3 =~= prev.3);
            }
            assert(recs_model(tokens@) =~= prev.3 + s.3);
        }
        fi = fi + 1;
    }
    Ok(RunOutput { matched: matched_any, stdout: output, tokens })
}

/// Feed arbitrary text to the parser: parsing is total and never fails.
pub fn fuzz_parse(text: &str) {
    let _ = ParsedConfig::from_text(text);
}

/// Feed an arbitrary pattern and text to the matcher: compiled patterns walk
/// every tree without failing.
pub fn fuzz_matcher(pattern: &str, text: &str) {
    match Pattern::parse(pattern) {
        Ok(p) => {
            let parsed = ParsedConfig::from_text(text);
            let mut accumulator = MatchAccumulator::new(&parsed);
            p.apply(&parsed, &mut accumulator);
        },
        Err(_) => {},
    }
}

} // verus!
