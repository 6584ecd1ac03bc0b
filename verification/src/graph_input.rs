//! Parsing the textual description of a graph: a line with the node count,
//! a line with the edge list as bracketed pairs, and a line each for the
//! source and destination of a search.

use vstd::prelude::*;
use itertools::Itertools;

verus! {

/// An ASCII decimal digit.
pub open spec fn is_digit(b: u8) -> bool {
    48 <= b && b <= 57
}

/// A byte with no meaning of its own on the edge line: a bracket, a comma,
/// or whitespace.
pub open spec fn is_delimiter(b: u8) -> bool {
    b == 91 || b == 93 || b == 44 || b == 32 || b == 9 || b == 13
}

/// The number a run of digits denotes.
pub open spec fn digits_value(s: Seq<u8>) -> nat
    decreases s.len(),
{
    if s.len() == 0 {
        0
    } else {
        digits_value(s.drop_last()) * 10 + ((s.last() - 48) as nat)
    }
}

/// A nonempty, all-digit byte run.
pub open spec fn all_digits(s: Seq<u8>) -> bool {
    s.len() > 0 && forall|i: int| 0 <= i < s.len() ==> is_digit(#[trigger] s[i])
}

/// The maximal digit runs of `s`, continued from the partial run `cur`.
pub open spec fn digit_runs_from(cur: Seq<u8>, s: Seq<u8>) -> Seq<Seq<u8>>
    decreases s.len(),
{
    if s.len() == 0 {
        if cur.len() == 0 {
            Seq::empty()
        } else {
            seq![cur]
        }
    } else if is_digit(s[0]) {
        digit_runs_from(cur.push(s[0]), s.drop_first())
    } else {
        (if cur.len() == 0 {
            Seq::<Seq<u8>>::empty()
        } else {
            seq![cur]
        }) + digit_runs_from(Seq::empty(), s.drop_first())
    }
}

/// The maximal digit runs of `s`.
pub open spec fn digit_runs(s: Seq<u8>) -> Seq<Seq<u8>> {
    digit_runs_from(Seq::empty(), s)
}

/// Every byte of the edge line is a digit or a delimiter.
pub open spec fn edge_line_ok(s: Seq<u8>) -> bool {
    forall|i: int| 0 <= i < s.len() ==> is_digit(#[trigger] s[i]) || is_delimiter(s[i])
}

/// Every digit run of the edge line denotes a machine-sized number.
pub open spec fn runs_fit(s: Seq<u8>) -> bool {
    forall|i: int|
        0 <= i < digit_runs(s).len() ==> digits_value(#[trigger] digit_runs(s)[i]) <= usize::MAX
}

/// Parses a whole line as one number: every byte must be a digit and the
/// value must fit in a machine word.
pub fn parse_usize(s: &[u8]) -> (r: Option<usize>)
    ensures
        match r {
            Some(v) => all_digits(s@) && v == digits_value(s@),
            None => !all_digits(s@) || digits_value(s@) > usize::MAX,
        },
{
    let n = s.len();
    if n == 0 {
        return None;
    }
    let mut v: usize = 0;
    let mut i: usize = 0;
    proof {
        assert(s@.take(0) =~= Seq::<u8>::empty());
    }
    while i < n
        invariant
            i <= n,
            n == s@.len(),
            forall|q: int| 0 <= q < i ==> is_digit(#[trigger] s@[q]),
            v == digits_value(s@.take(i as int)),
        decreases n - i,
    {
        let b = s[i];
        if b < 48 || b > 57 {
            return None;
        }
        let d = (b - 48) as usize;
        if v > (usize::MAX - d) / 10 {
            proof {
                lemma_digit_step_overflow(v as nat, d as nat);
                assert(s@.take(i as int + 1).drop_last() =~= s@.take(i as int));
                lemma_digits_value_prefix(s@, i as int + 1);
            }
            return None;
        }
        proof {
            lemma_digit_step_fits(v as nat, d as nat);
            assert(s@.take(i as int + 1).drop_last() =~= s@.take(i as int));
            assert(s@.take(i as int + 1).last() == s@[i as int]);
        }
        v = v * 10 + d;
        i = i + 1;
    }
    proof {
        assert(s@.take(n as int) =~= s@);
    }
    Some(v)
}

/// A value below the step bound keeps the next digit step within a machine
/// word.
proof fn lemma_digit_step_fits(v: nat, d: nat)
    requires
        d <= 9,
        v <= ((usize::MAX - d) as nat) / 10,
    ensures
        v * 10 + d <= usize::MAX,
{
    let m = (usize::MAX - d) as nat;
    vstd::arithmetic::div_mod::lemma_fundamental_div_mod(m as int, 10);
    assert(v * 10 <= (m / 10) * 10) by (nonlinear_arith)
        requires
            v <= m / 10,
    ;
    assert((m / 10) * 10 <= m) by (nonlinear_arith)
        requires
            m == 10 * (m / 10) + (m as int) % 10,
            0 <= (m as int) % 10,
    ;
}

/// A value past the step bound pushes the next digit step past any machine
/// word.
proof fn lemma_digit_step_overflow(v: nat, d: nat)
    requires
        d <= 9,
        v > ((usize::MAX - d) as nat) / 10,
    ensures
        v * 10 + d > usize::MAX,
{
    let m = (usize::MAX - d) as nat;
    vstd::arithmetic::div_mod::lemma_fundamental_div_mod(m as int, 10);
    assert(v * 10 >= (m / 10) * 10 + 10) by (nonlinear_arith)
        requires
            v >= m / 10 + 1,
    ;
    assert((m / 10) * 10 + 10 > m) by (nonlinear_arith)
        requires
            m == 10 * (m / 10) + (m as int) % 10,
            (m as int) % 10 < 10,
    ;
}

/// Reads every digit run of the edge line as a number, rejecting the line
/// when it holds a byte that is neither digit nor delimiter, or a run too
/// large for a machine word.
pub fn parse_numbers(line: &[u8]) -> (r: Option<Vec<usize>>)
    ensures
        match r {
            Some(vals) => edge_line_ok(line@) && runs_fit(line@) && vals@.len() == digit_runs(
                line@,
            ).len() && (forall|i: int|
                0 <= i < vals@.len() ==> vals@[i] == digits_value(
                    #[trigger] digit_runs(line@)[i],
                )),
            None => !(edge_line_ok(line@) && runs_fit(line@)),
        },
{
    let n = line.len();
    let mut vals: Vec<usize> = Vec::new();
    let mut v: usize = 0;
    let mut in_run = false;
    let mut i: usize = 0;
    let ghost mut cur: Seq<u8> = Seq::empty();
    let ghost mut done: Seq<Seq<u8>> = Seq::empty();
    proof {
        assert(line@.skip(0) =~= line@);
        assert(digit_runs(line@) == done + digit_runs_from(cur, line@.skip(0)));
    }
    while i < n
        invariant
            i <= n,
            n == line@.len(),
            forall|q: int| 0 <= q < i ==> is_digit(#[trigger] line@[q]) || is_delimiter(line@[q]),
            digit_runs(line@) == done + digit_runs_from(cur, line@.skip(i as int)),
            vals@.len() == done.len(),
            forall|q: int|
                0 <= q < done.len() ==> vals@[q] == digits_value(#[trigger] done[q]),
            in_run == (cur.len() > 0),
            v == digits_value(cur),
            forall|q: int| 0 <= q < cur.len() ==> is_digit(#[trigger] cur[q]),
        decreases n - i,
    {
        let b = line[i];
        proof {
            assert(line@.skip(i as int)[0] == line@[i as int]);
            assert(line@.skip(i as int).drop_first() =~= line@.skip(i as int + 1));
        }
        if 48 <= b && b <= 57 {
            proof {
                assert(digit_runs_from(cur, line@.skip(i as int)) == digit_runs_from(
                    cur.push(b),
                    line@.skip(i as int + 1),
                ));
                assert(cur.push(b).drop_last() =~= cur);
            }
            let d = (b - 48) as usize;
            if v > (usize::MAX - d) / 10 {
                proof {
                    lemma_digit_step_overflow(v as nat, d as nat);
                    lemma_run_extends(cur.push(b), line@.skip(i as int + 1));
                    let tail = digit_runs_from(cur.push(b), line@.skip(i as int + 1));
                    let ext = choose|ext: Seq<u8>| tail.len() >= 1 && tail[0] == cur.push(b) + ext;
                    lemma_digits_value_append(cur.push(b), ext);
                    let bad = done.len() as int;
                    assert((done + digit_runs_from(cur, line@.skip(i as int)))[bad] == tail[0]);
                    assert(digit_runs(line@)[bad] == cur.push(b) + ext);
                    assert(digits_value(digit_runs(line@)[bad]) > usize::MAX);
                }
                return None;
            }
            proof {
                lemma_digit_step_fits(v as nat, d as nat);
            }
            v = v * 10 + d;
            in_run = true;
            proof {
                cur = cur.push(b);
            }
        } else if b == 91 || b == 93 || b == 44 || b == 32 || b == 9 || b == 13 {
            if in_run {
                vals.push(v);
                proof {
                    assert(digit_runs_from(cur, line@.skip(i as int)) == seq![cur]
                        + digit_runs_from(Seq::empty(), line@.skip(i as int + 1)));
                    assert(done + (seq![cur] + digit_runs_from(
                        Seq::empty(),
                        line@.skip(i as int + 1),
                    )) =~= done.push(cur) + digit_runs_from(Seq::empty(), line@.skip(i as int + 1)));
                    done = done.push(cur);
                    cur = Seq::empty();
                }
                v = 0;
                in_run = false;
            } else {
                proof {
                    assert(cur =~= Seq::<u8>::empty());
                    assert(digit_runs_from(cur, line@.skip(i as int)) == Seq::<Seq<u8>>::empty()
                        + digit_runs_from(Seq::empty(), line@.skip(i as int + 1)));
                    assert(Seq::<Seq<u8>>::empty() + digit_runs_from(
                        Seq::empty(),
                        line@.skip(i as int + 1),
                    ) =~= digit_runs_from(Seq::empty(), line@.skip(i as int + 1)));
                }
            }
        } else {
            proof {
                assert(!is_digit(line@[i as int]) && !is_delimiter(line@[i as int]));
            }
            return None;
        }
        i = i + 1;
    }
    proof {
        assert(line@.skip(n as int) =~= Seq::<u8>::empty());
    }
    if in_run {
        vals.push(v);
        proof {
            done = done.push(cur);
        }
    }
    proof {
        assert(digit_runs(line@) =~= done);
    }
    Some(vals)
}

/// Groups a flat list of numbers into adjacent pairs, dropping a trailing
/// odd element.
///
/// Relies on itertools' `tuples`, which yields the items of the iterator in
/// groups of the tuple size and ignores an incomplete trailing group.
#[verifier::external_body]
fn pair_up(values: Vec<usize>) -> (r: Vec<(usize, usize)>)
    ensures
        r@.len() == values@.len() / 2,
        forall|i: int|
            0 <= i < r@.len() ==> #[trigger] r@[i] == (values@[2 * i], values@[2 * i + 1]),
{
    values.into_iter().tuples().collect()
}

/// A carriage return left at the end of a line by a two-byte line break.
pub open spec fn strip_return(l: Seq<u8>) -> Seq<u8> {
    if l.len() > 0 && l.last() == 13 {
        l.drop_last()
    } else {
        l
    }
}

/// The lines of `s`, continued from the partial line `cur`: line feeds end
/// lines, a carriage return before a line feed is dropped, and a final line
/// needs no line feed.
pub open spec fn lines_from(cur: Seq<u8>, s: Seq<u8>) -> Seq<Seq<u8>>
    decreases s.len(),
{
    if s.len() == 0 {
        if cur.len() == 0 {
            Seq::empty()
        } else {
            seq![strip_return(cur)]
        }
    } else if s[0] == 10 {
        seq![strip_return(cur)] + lines_from(Seq::empty(), s.drop_first())
    } else {
        lines_from(cur.push(s[0]), s.drop_first())
    }
}

/// The lines of a file.
pub open spec fn file_lines(s: Seq<u8>) -> Seq<Seq<u8>> {
    lines_from(Seq::empty(), s)
}

/// Splits a file into its lines.
pub fn split_lines(data: &[u8]) -> (r: Vec<Vec<u8>>)
    ensures
        r@.len() == file_lines(data@).len(),
        forall|i: int| 0 <= i < r@.len() ==> (#[trigger] r@[i])@ == file_lines(data@)[i],
{
    let n = data.len();
    let mut out: Vec<Vec<u8>> = Vec::new();
    let mut cur: Vec<u8> = Vec::new();
    let mut i: usize = 0;
    let ghost mut done: Seq<Seq<u8>> = Seq::empty();
    proof {
        assert(data@.skip(0) =~= data@);
    }
    while i < n
        invariant
            i <= n,
            n == data@.len(),
            file_lines(data@) == done + lines_from(cur@, data@.skip(i as int)),
            out@.len() == done.len(),
            forall|q: int| 0 <= q < done.len() ==> (#[trigger] out@[q])@ == done[q],
        decreases n - i,
    {
        let b = data[i];
        proof {
            assert(data@.skip(i as int)[0] == data@[i as int]);
            assert(data@.skip(i as int).drop_first() =~= data@.skip(i as int + 1));
        }
        if b == 10 {
            if cur.len() > 0 && cur[cur.len() - 1] == 13 {
                cur.pop();
                proof {
                    assert(cur@ =~= strip_return(cur@.push(13)));
                }
            } else {
                proof {
                    assert(cur@ == strip_return(cur@));
                }
            }
            proof {
                assert(done + (seq![cur@] + lines_from(Seq::empty(), data@.skip(i as int + 1)))
                    =~= done.push(cur@) + lines_from(Seq::empty(), data@.skip(i as int + 1)));
                done = done.push(cur@);
            }
            out.push(cur);
            cur = Vec::new();
        } else {
            cur.push(b);
        }
        i = i + 1;
    }
    proof {
        assert(data@.skip(n as int) =~= Seq::<u8>::empty());
    }
    if cur.len() > 0 {
        if cur[cur.len() - 1] == 13 {
            cur.pop();
            proof {
                assert(cur@ =~= strip_return(cur@.push(13)));
            }
        } else {
            proof {
                assert(cur@ == strip_return(cur@));
            }
        }
        proof {
            done = done.push(cur@);
        }
        out.push(cur);
    }
    proof {
        assert(file_lines(data@) =~= done);
    }
    out
}

/// Why a graph description was rejected: a line is missing, or one of the
/// numeric fields cannot be read.
#[derive(Debug, PartialEq, Eq)]
pub enum GraphFileError {
    MissingLine,
    BadNodeCount,
    BadEdgeNumber,
    BadSource,
    BadDestination,
}

/// A line that reads as one machine-sized number.
pub open spec fn line_parses(l: Seq<u8>) -> bool {
    all_digits(l) && digits_value(l) <= usize::MAX
}

/// The first fault in a graph description, checked in reading order, or
/// nothing when the description is well formed.
pub open spec fn graph_file_fault(data: Seq<u8>) -> Option<GraphFileError> {
    let ls = file_lines(data);
    if ls.len() < 1 {
        Some(GraphFileError::MissingLine)
    } else if !line_parses(ls[0]) {
        Some(GraphFileError::BadNodeCount)
    } else if ls.len() < 2 {
        Some(GraphFileError::MissingLine)
    } else if !(edge_line_ok(ls[1]) && runs_fit(ls[1])) {
        Some(GraphFileError::BadEdgeNumber)
    } else if ls.len() < 3 {
        Some(GraphFileError::MissingLine)
    } else if !line_parses(ls[2]) {
        Some(GraphFileError::BadSource)
    } else if ls.len() < 4 {
        Some(GraphFileError::MissingLine)
    } else if !line_parses(ls[3]) {
        Some(GraphFileError::BadDestination)
    } else {
        None
    }
}

/// Reads a graph description: the node count on the first line, the edges
/// as bracketed pairs of numbers on the second, and the source and
/// destination of a search on the third and fourth.
pub fn parse_graph_content(data: &[u8]) -> (r: Result<
    (usize, Vec<(usize, usize)>, usize, usize),
    GraphFileError,
>)
    ensures
        match r {
            Ok(parts) => {
                let ls = file_lines(data@);
                let runs = digit_runs(ls[1]);
                &&& graph_file_fault(data@) is None
                &&& parts.0 == digits_value(ls[0])
                &&& parts.1@.len() == runs.len() / 2
                &&& (forall|i: int|
                    0 <= i < parts.1@.len() ==> (#[trigger] parts.1@[i]).0 == digits_value(
                        runs[2 * i],
                    ) && parts.1@[i].1 == digits_value(runs[2 * i + 1]))
                &&& parts.2 == digits_value(ls[2])
                &&& parts.3 == digits_value(ls[3])
            },
            Err(e) => graph_file_fault(data@) == Some(e),
        },
{
    let lines = split_lines(data);
    if lines.len() < 1 {
        return Err(GraphFileError::MissingLine);
    }
    let num_nodes = match parse_usize(lines[0].as_slice()) {
        Some(v) => v,
        None => {
            return Err(GraphFileError::BadNodeCount);
        },
    };
    if lines.len() < 2 {
        return Err(GraphFileError::MissingLine);
    }
    let numbers = match parse_numbers(lines[1].as_slice()) {
        Some(vals) => vals,
        None => {
            return Err(GraphFileError::BadEdgeNumber);
        },
    };
    let ghost vals_view = numbers@;
    let edges = pair_up(numbers);
    if lines.len() < 3 {
        return Err(GraphFileError::MissingLine);
    }
    let source = match parse_usize(lines[2].as_slice()) {
        Some(v) => v,
        None => {
            return Err(GraphFileError::BadSource);
        },
    };
    if lines.len() < 4 {
        return Err(GraphFileError::MissingLine);
    }
    let destination = match parse_usize(lines[3].as_slice()) {
        Some(v) => v,
        None => {
            return Err(GraphFileError::BadDestination);
        },
    };
    Ok((num_nodes, edges, source, destination))
}

/// A run continued into the remaining bytes begins with the partial run
/// already read.
proof fn lemma_run_extends(cur: Seq<u8>, s: Seq<u8>)
    requires
        cur.len() > 0,
    ensures
        digit_runs_from(cur, s).len() >= 1,
        exists|ext: Seq<u8>| digit_runs_from(cur, s).len() >= 1 && digit_runs_from(cur, s)[0] == cur + ext,
    decreases s.len(),
{
    if s.len() == 0 {
        assert(cur + Seq::<u8>::empty() =~= cur);
        assert(digit_runs_from(cur, s)[0] == cur + Seq::<u8>::empty());
    } else if is_digit(s[0]) {
        lemma_run_extends(cur.push(s[0]), s.drop_first());
        let ext = choose|ext: Seq<u8>|
            digit_runs_from(cur.push(s[0]), s.drop_first()).len() >= 1 && digit_runs_from(
                cur.push(s[0]),
                s.drop_first(),
            )[0] == cur.push(s[0]) + ext;
        assert(cur.push(s[0]) + ext =~= cur + (seq![s[0]] + ext));
        assert(digit_runs_from(cur, s)[0] == cur + (seq![s[0]] + ext));
    } else {
        assert(cur + Seq::<u8>::empty() =~= cur);
        assert(digit_runs_from(cur, s)[0] == cur + Seq::<u8>::empty());
    }
}

/// Appending bytes to a digit run never lowers its value.
proof fn lemma_digits_value_append(a: Seq<u8>, b: Seq<u8>)
    ensures
        digits_value(a) <= digits_value(a + b),
    decreases b.len(),
{
    if b.len() == 0 {
        assert(a + b =~= a);
    } else {
        lemma_digits_value_append(a, b.drop_last());
        assert((a + b).drop_last() =~= a + b.drop_last());
        assert(digits_value(a + b) == digits_value(a + b.drop_last()) * 10 + (((a + b).last()
            - 48) as nat));
        assert(digits_value(a + b.drop_last()) * 10 >= digits_value(a + b.drop_last()))
            by (nonlinear_arith);
    }
}

/// A digit run denotes at least as much as any of its prefixes.
proof fn lemma_digits_value_prefix(s: Seq<u8>, i: int)
    requires
        0 <= i <= s.len(),
    ensures
        digits_value(s.take(i)) <= digits_value(s),
    decreases s.len() - i,
{
    if i == s.len() {
        assert(s.take(i) =~= s);
    } else {
        assert(s.take(i + 1).drop_last() =~= s.take(i));
        assert(digits_value(s.take(i)) <= digits_value(s.take(i + 1))) by {
            assert(digits_value(s.take(i)) * 10 >= digits_value(s.take(i))) by (nonlinear_arith);
        }
        lemma_digits_value_prefix(s, i + 1);
    }
}

} // verus!
