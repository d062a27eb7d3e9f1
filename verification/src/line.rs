//! The line parser: one line of free text becomes an optional amount and
//! a name; a block of text becomes a list of parsed lines, with blank
//! lines ignored.

use vstd::prelude::*;

use crate::amount::spec_parse_amount;
use crate::amount::Amount;
use crate::error::Error;
use crate::error::ErrorSpec;
use crate::text::find_char;
use crate::text::is_space;
use crate::text::is_space_char;
use crate::text::token_of;
use crate::text::trim;
use crate::text::trim_back;
use crate::text::trim_front;

verus! {

/// The mathematical value of a parsed line.
pub struct LineSpec {
    /// The amount, absent when the line opens with no recognizable one.
    pub amount: Option<Amount>,
    /// The name: trimmed, non-empty free text.
    pub name: Seq<char>,
}

/// One parsed input line.
#[derive(Debug, Clone)]
pub struct ParsedLine {
    /// The amount, absent when the line opens with no recognizable one.
    pub amount: Option<Amount>,
    /// The name: trimmed, non-empty free text.
    pub name: String,
}

impl View for ParsedLine {
    type V = LineSpec;

    open spec fn view(&self) -> LineSpec {
        LineSpec { amount: self.amount, name: self.name@ }
    }
}

/// How one line reads: after trimming, an empty line is refused; a
/// leading token that parses as an amount is split off and the trimmed
/// remainder must be a non-empty name; otherwise the whole trimmed line
/// is the name and the amount is absent.
pub open spec fn spec_parse_line(s: Seq<char>) -> Result<LineSpec, ErrorSpec> {
    let t = trim(s);
    if t.len() == 0 {
        Err(ErrorSpec::EmptyLine)
    } else {
        let tok = token_of(t);
        match spec_parse_amount(tok) {
            Some(a) => {
                let name = trim(t.skip(tok.len() as int));
                if name.len() == 0 {
                    Err(ErrorSpec::MissingName)
                } else {
                    Ok(LineSpec { amount: Some(a), name })
                }
            },
            None => Ok(LineSpec { amount: None, name: t }),
        }
    }
}

/// Advances past leading whitespace, starting at `from`.
fn skip_spaces(s: &str, from: usize, n: usize) -> (r: usize)
    requires
        from <= n,
        n == s@.len(),
    ensures
        from <= r <= n,
        trim_front(s@.subrange(from as int, n as int)) == s@.subrange(r as int, n as int),
        r < n ==> !is_space(s@[r as int]),
{
    let mut i = from;
    while i < n && is_space_char(s.get_char(i))
        invariant
            from <= i <= n,
            n == s@.len(),
            trim_front(s@.subrange(from as int, n as int)) == trim_front(
                s@.subrange(i as int, n as int),
            ),
        decreases n - i,
    {
        proof {
            let cur = s@.subrange(i as int, n as int);
            assert(cur[0] == s@[i as int]);
            assert(cur.subrange(1, cur.len() as int) =~= s@.subrange(i + 1, n as int));
        }
        i = i + 1;
    }
    proof {
        let cur = s@.subrange(i as int, n as int);
        if i < n {
            assert(cur[0] == s@[i as int]);
        }
        assert(trim_front(cur) == cur);
    }
    i
}

impl ParsedLine {
    /// Parses one line, exactly as [`spec_parse_line`] reads it.
    pub fn parse(s: &str) -> (r: Result<ParsedLine, Error>)
        ensures
            match (r, spec_parse_line(s@)) {
                (Ok(pl), Ok(lv)) => pl@ == lv,
                (Err(e), Err(ev)) => e@ == ev,
                _ => false,
            },
    {
        let n = s.unicode_len();
        proof {
            assert(s@.subrange(0, n as int) =~= s@);
        }
        let start = skip_spaces(s, 0, n);
        // Trim the back of the remainder.
        let mut end = n;
        while end > start && is_space_char(s.get_char(end - 1))
            invariant
                start <= end <= n,
                n == s@.len(),
                trim_back(s@.subrange(start as int, n as int)) == trim_back(
                    s@.subrange(start as int, end as int),
                ),
            decreases end,
        {
            proof {
                let cur = s@.subrange(start as int, end as int);
                assert(cur.last() == s@[end - 1]);
                assert(cur.drop_last() =~= s@.subrange(start as int, end - 1));
            }
            end = end - 1;
        }
        proof {
            let cur = s@.subrange(start as int, end as int);
            if end > start {
                assert(cur.last() == s@[end - 1]);
            }
            assert(trim_back(cur) == cur);
            assert(trim(s@) == s@.subrange(start as int, end as int));
        }
        let t = s.substring_char(start, end);
        let ghost tv = trim(s@);
        let tn = end - start;
        proof {
            assert(t@ =~= tv);
        }
        if tn == 0 {
            return Err(Error::EmptyLine);
        }
        // Split off the leading token.
        proof {
            assert(tv.skip(0) =~= tv);
            assert(tv.take(0) =~= Seq::<char>::empty());
            assert(Seq::<char>::empty() + token_of(tv) =~= token_of(tv));
        }
        let mut k: usize = 0;
        while k < tn && !is_space_char(t.get_char(k))
            invariant
                k <= tn,
                t@ == tv,
                tn == tv.len(),
                token_of(tv) == tv.take(k as int) + token_of(tv.skip(k as int)),
                forall|j: int| 0 <= j < k ==> !is_space(#[trigger] tv[j]),
            decreases tn - k,
        {
            proof {
                let cur = tv.skip(k as int);
                assert(cur[0] == tv[k as int]);
                assert(cur.subrange(1, cur.len() as int) =~= tv.skip(k + 1));
                assert(tv.take(k as int) + seq![tv[k as int]] =~= tv.take(k + 1));
                assert(tv.take(k as int) + (seq![cur[0]] + token_of(cur.subrange(
                    1,
                    cur.len() as int,
                ))) =~= tv.take(k + 1) + token_of(tv.skip(k + 1)));
            }
            k = k + 1;
        }
        proof {
            let cur = tv.skip(k as int);
            if k < tn {
                assert(cur[0] == tv[k as int]);
            }
            assert(token_of(cur) =~= Seq::<char>::empty());
            assert(token_of(tv) =~= tv.take(k as int));
        }
        let token = t.substring_char(0, k);
        proof {
            assert(token@ =~= tv.take(k as int));
        }
        match Amount::parse(token) {
            Ok(a) => {
                // The name is the trimmed remainder after the token.
                let k2 = skip_spaces(t, k, tn);
                proof {
                    assert(t@.subrange(k as int, tn as int) =~= tv.skip(k as int));
                    let name = t@.subrange(k2 as int, tn as int);
                    if k2 < tn {
                        assert(name.last() == tv[tn - 1]);
                        assert(!is_space(tv[tn - 1])) by {
                            assert(trim_back(tv) == tv);
                        }
                    }
                    assert(trim_back(name) == name);
                    assert(trim(tv.skip(k as int)) == name);
                }
                if k2 == tn {
                    Err(Error::MissingName)
                } else {
                    let name = t.substring_char(k2, tn);
                    Ok(ParsedLine { amount: Some(a), name: name.to_owned() })
                }
            },
            Err(_) => Ok(ParsedLine { amount: None, name: t.to_owned() }),
        }
    }
}

/// The lines of a text, split at newlines.
pub open spec fn spec_lines(s: Seq<char>) -> Seq<Seq<char>>
    decreases s.len(),
{
    let i = find_char(s, '\n');
    if 0 <= i < s.len() {
        seq![s.take(i)] + spec_lines(s.skip(i + 1))
    } else {
        seq![s]
    }
}

/// The parsed lines of a text: blank lines are skipped, the first
/// failing line aborts the whole reading.
pub open spec fn spec_parse_lines(lines: Seq<Seq<char>>) -> Result<Seq<LineSpec>, ErrorSpec>
    decreases lines.len(),
{
    if lines.len() == 0 {
        Ok(Seq::empty())
    } else if trim(lines[0]).len() == 0 {
        spec_parse_lines(lines.skip(1))
    } else {
        match spec_parse_line(lines[0]) {
            Err(e) => Err(e),
            Ok(lv) => match spec_parse_lines(lines.skip(1)) {
                Ok(tail) => Ok(seq![lv] + tail),
                Err(e) => Err(e),
            },
        }
    }
}

/// What a whole input text parses to.
pub open spec fn spec_from_text(s: Seq<char>) -> Result<Seq<LineSpec>, ErrorSpec> {
    spec_parse_lines(spec_lines(s))
}

/// The values of a list of parsed lines.
pub open spec fn lines_view(v: Seq<ParsedLine>) -> Seq<LineSpec> {
    v.map_values(|pl: ParsedLine| pl@)
}

/// An unsorted note: the parsed lines of one input text, in input order.
#[derive(Debug, Clone)]
pub struct Zettel {
    /// The parsed lines, in input order.
    pub zettel: Vec<ParsedLine>,
}

impl View for Zettel {
    type V = Seq<LineSpec>;

    open spec fn view(&self) -> Seq<LineSpec> {
        lines_view(self.zettel@)
    }
}

/// Finds the next newline at or after `from`, or the end of the text.
fn find_newline(s: &str, from: usize, n: usize) -> (r: usize)
    requires
        from <= n,
        n == s@.len(),
    ensures
        from <= r <= n,
        r - from == find_char(s@.skip(from as int), '\n'),
        r < n ==> s@[r as int] == '\n',
        forall|j: int| from <= j < r ==> s@[j] != '\n',
{
    let mut i = from;
    while i < n && s.get_char(i) != '\n'
        invariant
            from <= i <= n,
            n == s@.len(),
            find_char(s@.skip(from as int), '\n') == (i - from) + find_char(
                s@.skip(i as int),
                '\n',
            ),
            forall|j: int| from <= j < i ==> s@[j] != '\n',
        decreases n - i,
    {
        proof {
            let cur = s@.skip(i as int);
            assert(cur[0] == s@[i as int]);
            assert(cur.subrange(1, cur.len() as int) =~= s@.skip(i + 1));
        }
        i = i + 1;
    }
    proof {
        let cur = s@.skip(i as int);
        if i < n {
            assert(cur[0] == s@[i as int]);
        } else {
            assert(cur.len() == 0);
        }
        assert(find_char(cur, '\n') == 0);
    }
    i
}

impl Zettel {
    /// Parses a whole input text, line by line, exactly as
    /// [`spec_from_text`] reads it: blank lines are ignored, the first
    /// bad line aborts with its error.
    pub fn from_text(text: &str) -> (r: Result<Zettel, Error>)
        ensures
            match (r, spec_from_text(text@)) {
                (Ok(z), Ok(lines)) => z@ == lines,
                (Err(e), Err(ev)) => e@ == ev,
                _ => false,
            },
    {
        let n = text.unicode_len();
        let mut acc: Vec<ParsedLine> = Vec::new();
        let mut p: usize = 0;
        let mut done = false;
        proof {
            assert(text@.skip(0) =~= text@);
        }
        while !done
            invariant
                p <= n,
                n == text@.len(),
                !done ==> match spec_parse_lines(spec_lines(text@.skip(p as int))) {
                    Ok(tail) => spec_from_text(text@) == Ok::<Seq<LineSpec>, ErrorSpec>(
                        lines_view(acc@) + tail,
                    ),
                    Err(e) => spec_from_text(text@) == Err::<Seq<LineSpec>, ErrorSpec>(e),
                },
                done ==> spec_from_text(text@) == Ok::<Seq<LineSpec>, ErrorSpec>(lines_view(acc@)),
            decreases n - p + 1 - (if done {
                1int
            } else {
                0int
            }),
        {
            let ghost rest = text@.skip(p as int);
            let idx = find_newline(text, p, n);
            let ghost fc = find_char(rest, '\n');
            proof {
                assert(fc == idx - p);
                if idx < n {
                    assert(rest.take(fc) =~= text@.subrange(p as int, idx as int));
                    assert(rest.skip(fc + 1) =~= text@.skip(idx + 1));
                    assert(spec_lines(rest) == seq![text@.subrange(p as int, idx as int)]
                        + spec_lines(text@.skip(idx + 1)));
                    assert(spec_lines(rest).skip(1) =~= spec_lines(text@.skip(idx + 1)));
                } else {
                    assert(fc == rest.len());
                    assert(!(0 <= fc < rest.len()));
                    assert(spec_lines(rest) == seq![rest]);
                    assert(rest =~= text@.subrange(p as int, idx as int));
                    assert(spec_lines(rest).skip(1) =~= Seq::<Seq<char>>::empty());
                }
                assert(spec_lines(rest)[0] == text@.subrange(p as int, idx as int));
            }
            let line = text.substring_char(p, idx);
            let ghost pre_acc = acc@;
            match ParsedLine::parse(line) {
                Ok(pl) => {
                    acc.push(pl);
                    proof {
                        assert(lines_view(acc@) =~= lines_view(pre_acc) + seq![pl@]);
                        if spec_parse_lines(spec_lines(rest).skip(1)) is Ok {
                            let tail = spec_parse_lines(spec_lines(rest).skip(1))->Ok_0;
                            assert(lines_view(pre_acc) + (seq![pl@] + tail) =~= lines_view(acc@)
                                + tail);
                        }
                    }
                },
                Err(e) => {
                    match e {
                        Error::EmptyLine => {
                        },
                        _ => {
                            return Err(e);
                        },
                    }
                },
            }
            if idx == n {
                done = true;
                proof {
                    assert(spec_parse_lines(Seq::<Seq<char>>::empty()) == Ok::<
                        Seq<LineSpec>,
                        ErrorSpec,
                    >(Seq::empty()));
                    assert(lines_view(acc@) + Seq::<LineSpec>::empty() =~= lines_view(acc@));
                }
            } else {
                p = idx + 1;
            }
        }
        Ok(Zettel { zettel: acc })
    }
}

} // verus!
