//! The report parser: turns the external tool's multi-project outdated
//! report into an ordered sequence of (project, dependency) observations.
//!
//! Line discipline, byte for byte per line:
//!   - a line starting with `The given project` or `Project` names a project
//!     inside backticks and becomes the current attribution context;
//!   - a line containing `>` is a dependency row: after removing every `>`,
//!     its first four whitespace-separated tokens are the record's fields,
//!     and fewer than four tokens is a fatal malformed-input condition;
//!   - every other line is ignored.

use vstd::prelude::*;

use crate::dep::{dep_wf, DepView, Dependency};
use crate::text::{
    contains_char, find_char_from, idx_of, lemma_idx_of_exact, lemma_no_gt_concat,
    lemma_remove_gt_chars, lemma_remove_gt_id, lemma_split_ws_no_gt, lemma_split_ws_token_prefix,
    lemma_split_ws_tokens, lemma_split_ws_ws_head, lines_of, remove_gt, split_lines, split_ws,
    starts_with_lit, strip_gt, strs_view, tokenize_ws,
};

verus! {

/// Why a parse of the whole report fails; either condition aborts the run,
/// since the report's shape can no longer be trusted.
#[derive(Clone, Copy, Debug, PartialEq, Eq, Structural)]
pub enum ParseError {
    /// A dependency row had fewer than four whitespace-separated tokens.
    RowTooShort,
    /// A project line did not carry a backtick-enclosed project name.
    UnterminatedProjectName,
}

/// The tokens of a dependency row: the line with every `>` removed, split on
/// whitespace.
pub open spec fn row_tokens(l: Seq<char>) -> Seq<Seq<char>> {
    split_ws(remove_gt(l))
}

/// The dependency a row's tokens describe, fields read positionally.
pub open spec fn row_dep(toks: Seq<Seq<char>>) -> DepView {
    DepView { name: toks[0], requested: toks[1], resolved: toks[2], latest: toks[3] }
}

/// Parses one dependency row. Returns the record exactly when the row has at
/// least four tokens; the fields are the first four tokens in order, and all
/// of them are non-empty.
pub fn parse_row(line: &str) -> (r: Result<Dependency, ParseError>)
    ensures
        ({
            let toks = row_tokens(line@);
            match r {
                Ok(d) => toks.len() >= 4 && d@ == row_dep(toks) && dep_wf(d@),
                Err(e) => toks.len() < 4 && e == ParseError::RowTooShort,
            }
        }),
{
    let stripped = strip_gt(line);
    let toks = tokenize_ws(stripped.as_str());
    proof {
        lemma_split_ws_tokens(remove_gt(line@));
    }
    if toks.len() < 4 {
        Err(ParseError::RowTooShort)
    } else {
        let d = Dependency {
            name: toks[0].clone(),
            requested: toks[1].clone(),
            resolved: toks[2].clone(),
            latest: toks[3].clone(),
        };
        proof {
            assert(strs_view(toks@)[0] == toks@[0]@);
            assert(strs_view(toks@)[1] == toks@[1]@);
            assert(strs_view(toks@)[2] == toks@[2]@);
            assert(strs_view(toks@)[3] == toks@[3]@);
        }
        Ok(d)
    }
}

/// A dependency's four fields rejoined with single spaces, in row order.
pub open spec fn rejoin(d: DepView) -> Seq<char> {
    d.name + seq![' '] + d.requested + seq![' '] + d.resolved + seq![' '] + d.latest
}

/// A well-formed report row round-trips: rejoining the four parsed fields
/// with single spaces and parsing the result as a row reproduces exactly
/// the original first four tokens, whatever the original whitespace and `>`
/// placement were.
pub proof fn lemma_row_round_trip(line: Seq<char>)
    requires
        row_tokens(line).len() >= 4,
    ensures
        ({
            let toks = row_tokens(line);
            row_tokens(rejoin(row_dep(toks))) == seq![toks[0], toks[1], toks[2], toks[3]]
        }),
{
    let s = remove_gt(line);
    let toks = row_tokens(line);
    lemma_split_ws_tokens(s);
    lemma_remove_gt_chars(line);
    lemma_split_ws_no_gt(s);
    let t0 = toks[0];
    let t1 = toks[1];
    let t2 = toks[2];
    let t3 = toks[3];
    let sp = seq![' '];
    assert(sp[0] == ' ');
    let u2 = t3;
    let u1 = t2 + (sp + u2);
    let u0 = t1 + (sp + u1);
    let r = t0 + (sp + u0);
    assert(rejoin(row_dep(toks)) =~= r);
    // none of the rejoined characters is a `>`, so `remove_gt` keeps the row
    assert forall|t: int| 0 <= t < sp.len() implies sp[t] != '>' by {}
    lemma_no_gt_concat(sp, u2);
    lemma_no_gt_concat(t2, sp + u2);
    lemma_no_gt_concat(sp, u1);
    lemma_no_gt_concat(t1, sp + u1);
    lemma_no_gt_concat(sp, u0);
    lemma_no_gt_concat(t0, sp + u0);
    lemma_remove_gt_id(r);
    // splitting the rejoined row on whitespace recovers the four tokens
    assert((sp + u0)[0] == ' ');
    lemma_split_ws_token_prefix(t0, sp + u0);
    lemma_split_ws_ws_head(u0);
    assert((sp + u1)[0] == ' ');
    lemma_split_ws_token_prefix(t1, sp + u1);
    lemma_split_ws_ws_head(u1);
    assert((sp + u2)[0] == ' ');
    lemma_split_ws_token_prefix(t2, sp + u2);
    lemma_split_ws_ws_head(u2);
    assert(t3 + Seq::<char>::empty() =~= t3);
    lemma_split_ws_token_prefix(t3, Seq::<char>::empty());
    assert(split_ws(Seq::<char>::empty()) == Seq::<Seq<char>>::empty());
    assert(split_ws(t3) == seq![t3] + Seq::<Seq<char>>::empty());
    assert(split_ws(r) =~= seq![t0, t1, t2, t3]);
}

/// The project name a context line announces: the characters between the
/// first backtick and the next one, or nothing if the line does not hold two
/// backticks.
pub open spec fn backtick_name(l: Seq<char>) -> Option<Seq<char>> {
    let i = idx_of(l, '`');
    if i < 0 {
        Option::None
    } else {
        let j = idx_of(l.skip(i + 1), '`');
        if j < 0 {
            Option::None
        } else {
            Option::Some(l.skip(i + 1).take(j))
        }
    }
}

/// Extracts the backtick-enclosed project name from a context line.
pub fn project_name(line: &str) -> (r: Option<String>)
    ensures
        match r {
            Some(nm) => backtick_name(line@) == Option::Some(nm@),
            None => backtick_name(line@) is None,
        },
{
    let n = line.unicode_len();
    match find_char_from(line, n, '`', 0) {
        None => {
            proof {
                lemma_idx_of_exact(line@, '`', n as int);
            }
            None
        },
        Some(i) => {
            proof {
                lemma_idx_of_exact(line@, '`', i as int);
            }
            let ghost tail = line@.skip(i + 1);
            match find_char_from(line, n, '`', i + 1) {
                None => {
                    proof {
                        assert forall|t: int| 0 <= t < tail.len() implies tail[t] != '`' by {
                            assert(tail[t] == line@[i + 1 + t]);
                        }
                        lemma_idx_of_exact(tail, '`', tail.len() as int);
                    }
                    None
                },
                Some(j) => {
                    let nm = line.substring_char(i + 1, j).to_owned();
                    proof {
                        assert forall|t: int| 0 <= t < j - i - 1 implies tail[t] != '`' by {
                            assert(tail[t] == line@[i + 1 + t]);
                        }
                        assert(tail[j - i - 1] == line@[j as int]);
                        lemma_idx_of_exact(tail, '`', j - i - 1);
                        assert(tail.take(j - i - 1) =~= line@.subrange(i + 1, j as int));
                    }
                    Some(nm)
                },
            }
        },
    }
}

/// The marker announcing a project with no outdated dependencies.
pub open spec fn empty_marker() -> Seq<char> {
    "The given project"@
}

/// The marker announcing a project with outdated dependencies.
pub open spec fn project_marker() -> Seq<char> {
    "Project"@
}

/// Whether a line updates the project context rather than carrying data.
pub open spec fn is_context_line(l: Seq<char>) -> bool {
    empty_marker().is_prefix_of(l) || project_marker().is_prefix_of(l)
}

/// The observations a report's lines denote, read top to bottom with `ctx`
/// as the project every row is attributed to until the next context line.
pub open spec fn obs_of_lines(lines: Seq<Seq<char>>, ctx: Seq<char>) -> Result<
    Seq<(Seq<char>, DepView)>,
    ParseError,
>
    decreases lines.len(),
{
    if lines.len() == 0 {
        Ok(Seq::empty())
    } else {
        let l = lines[0];
        if is_context_line(l) {
            match backtick_name(l) {
                Option::None => Err(ParseError::UnterminatedProjectName),
                Option::Some(nm) => obs_of_lines(lines.skip(1), nm),
            }
        } else if l.contains('>') {
            if row_tokens(l).len() < 4 {
                Err(ParseError::RowTooShort)
            } else {
                match obs_of_lines(lines.skip(1), ctx) {
                    Ok(rest) => Ok(seq![(ctx, row_dep(row_tokens(l)))] + rest),
                    Err(e) => Err(e),
                }
            }
        } else {
            obs_of_lines(lines.skip(1), ctx)
        }
    }
}

/// The views of a sequence of owned observations.
pub open spec fn obs_view(v: Seq<(String, Dependency)>) -> Seq<(Seq<char>, DepView)> {
    v.map_values(|o: (String, Dependency)| (o.0@, o.1@))
}

/// Every dependency of a successfully parsed report is well-formed: each of
/// its four fields is non-empty.
pub proof fn lemma_obs_wf(lines: Seq<Seq<char>>, ctx: Seq<char>)
    ensures
        obs_of_lines(lines, ctx) is Ok ==> forall|k: int|
            0 <= k < obs_of_lines(lines, ctx)->Ok_0.len() ==> dep_wf(
                #[trigger] obs_of_lines(lines, ctx)->Ok_0[k].1,
            ),
    decreases lines.len(),
{
    if lines.len() == 0 {
    } else {
        let l = lines[0];
        if is_context_line(l) {
            if backtick_name(l) is Some {
                lemma_obs_wf(lines.skip(1), backtick_name(l)->0);
            }
        } else if l.contains('>') {
            if row_tokens(l).len() >= 4 {
                lemma_obs_wf(lines.skip(1), ctx);
                lemma_split_ws_tokens(remove_gt(l));
                if obs_of_lines(lines, ctx) is Ok {
                    let whole = obs_of_lines(lines, ctx)->Ok_0;
                    let rest = obs_of_lines(lines.skip(1), ctx)->Ok_0;
                    assert forall|k: int| 0 <= k < whole.len() implies dep_wf(
                        #[trigger] whole[k].1,
                    ) by {
                        if k == 0 {
                            assert(whole[0].1 == row_dep(row_tokens(l)));
                        } else {
                            assert(whole[k] == rest[k - 1]);
                        }
                    }
                }
            }
        } else {
            lemma_obs_wf(lines.skip(1), ctx);
        }
    }
}

/// Parses the full report text into its ordered (project, dependency)
/// observations, attributing each row to the most recent context line and
/// the empty project name before any.
pub fn parse_report(text: &str) -> (r: Result<Vec<(String, Dependency)>, ParseError>)
    ensures
        match r {
            Ok(obs) => obs_of_lines(lines_of(text@), Seq::empty()) == Ok::<
                Seq<(Seq<char>, DepView)>,
                ParseError,
            >(obs_view(obs@)),
            Err(e) => obs_of_lines(lines_of(text@), Seq::empty()) == Err::<
                Seq<(Seq<char>, DepView)>,
                ParseError,
            >(e),
        },
{
    let lines = split_lines(text);
    let nl = lines.len();
    let mut obs: Vec<(String, Dependency)> = Vec::new();
    let mut ctx = String::new();
    let mut k: usize = 0;
    proof {
        assert(strs_view(lines@).skip(0) =~= strs_view(lines@));
        assert(obs_view(obs@) =~= Seq::<(Seq<char>, DepView)>::empty());
        if obs_of_lines(strs_view(lines@), ctx@) is Ok {
            assert(obs_view(obs@) + obs_of_lines(strs_view(lines@), ctx@)->Ok_0 =~= obs_of_lines(
                strs_view(lines@),
                ctx@,
            )->Ok_0);
        }
    }
    while k < nl
        invariant
            nl == lines@.len(),
            k <= nl,
            strs_view(lines@) == lines_of(text@),
            obs_of_lines(lines_of(text@), Seq::empty()) == (match obs_of_lines(
                strs_view(lines@).skip(k as int),
                ctx@,
            ) {
                Ok(rest) => Ok::<Seq<(Seq<char>, DepView)>, ParseError>(obs_view(obs@) + rest),
                Err(e) => Err::<Seq<(Seq<char>, DepView)>, ParseError>(e),
            }),
        decreases nl - k,
    {
        let ghost lv = strs_view(lines@).skip(k as int);
        let ghost octx = ctx@;
        proof {
            assert(lv[0] == lines@[k as int]@);
            assert(lv.skip(1) =~= strs_view(lines@).skip(k as int + 1));
        }
        let line = &lines[k];
        let ctx_line = starts_with_lit(line.as_str(), "The given project") || starts_with_lit(
            line.as_str(),
            "Project",
        );
        if ctx_line {
            match project_name(line.as_str()) {
                None => {
                    return Err(ParseError::UnterminatedProjectName);
                },
                Some(nm) => {
                    ctx = nm;
                },
            }
        } else if contains_char(line.as_str(), '>') {
            match parse_row(line.as_str()) {
                Err(e) => {
                    return Err(e);
                },
                Ok(d) => {
                    let ghost pre = obs_view(obs@);
                    let project = ctx.clone();
                    obs.push((project, d));
                    proof {
                        assert(obs_view(obs@) =~= pre.push((octx, d@)));
                        if obs_of_lines(lv.skip(1), octx) is Ok {
                            let rest = obs_of_lines(lv.skip(1), octx)->Ok_0;
                            assert(obs_of_lines(lv, octx)->Ok_0 == seq![
                                (octx, row_dep(row_tokens(lv[0]))),
                            ] + rest);
                            assert(pre.push((octx, d@)) + rest =~= pre + (seq![(octx, d@)] + rest));
                        }
                    }
                },
            }
        } else {
            proof {
                assert(obs_of_lines(lv, octx) == obs_of_lines(lv.skip(1), octx));
            }
        }
        k += 1;
    }
    proof {
        assert(strs_view(lines@).skip(nl as int) =~= Seq::<Seq<char>>::empty());
        assert(obs_of_lines(strs_view(lines@).skip(nl as int), ctx@) == Ok::<
            Seq<(Seq<char>, DepView)>,
            ParseError,
        >(Seq::empty()));
        assert(obs_view(obs@) + Seq::<(Seq<char>, DepView)>::empty() =~= obs_view(obs@));
    }
    Ok(obs)
}

} // verus!
