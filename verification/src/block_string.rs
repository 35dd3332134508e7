//! Block strings: the nested scan that consumes a triple-quoted literal,
//! the dedent transform on its raw lines, and the re-printing of the
//! dedented text between fresh delimiters.

use vstd::prelude::*;
use vstd::string::*;

verus! {

/// Whether a character counts as one unit of indentation width.
pub open spec fn is_gql_ws_char(c: char) -> bool {
    c == ' ' || c == '\t'
}

/// The length of the run of indentation characters starting at `i`.
pub open spec fn indent_from(l: Seq<char>, i: int) -> nat
    decreases l.len() - i,
{
    if 0 <= i < l.len() && is_gql_ws_char(l[i]) {
        1 + indent_from(l, i + 1)
    } else {
        0
    }
}

/// A line that is empty or holds only indentation characters.
pub open spec fn is_blank_line(l: Seq<char>) -> bool {
    indent_from(l, 0) == l.len()
}

pub proof fn lemma_indent_le(l: Seq<char>, i: int)
    requires
        0 <= i <= l.len(),
    ensures
        i + indent_from(l, i) <= l.len(),
    decreases l.len() - i,
{
    if i < l.len() && is_gql_ws_char(l[i]) {
        lemma_indent_le(l, i + 1);
    }
}

/// The character sequences a sequence of strings holds.
pub open spec fn views_of(v: Seq<String>) -> Seq<Seq<char>> {
    Seq::new(v.len(), |k: int| v[k]@)
}

/// A closing (or opening) block-string delimiter at position `m`.
pub open spec fn triple_quote_at(s: Seq<char>, m: int) -> bool {
    m >= 0 && m + 3 <= s.len() && s[m] == '"' && s[m + 1] == '"' && s[m + 2] == '"'
}

/// A backslash-escaped triple quote at position `m`.
pub open spec fn escaped_triple_at(s: Seq<char>, m: int) -> bool {
    m >= 0 && m + 4 <= s.len() && s[m] == '\\' && s[m + 1] == '"' && s[m + 2] == '"' && s[m + 3]
        == '"'
}

pub open spec fn close_lines(acc: Seq<Seq<char>>, cur: Seq<char>) -> Seq<Seq<char>> {
    if cur.len() > 0 {
        acc.push(cur)
    } else {
        acc
    }
}

/// Scans the raw text of a block string from position `m` (just past the
/// opening delimiter) up to and including the matching closing delimiter,
/// or to the end of the text when no closing delimiter follows. Yields the
/// raw line sequence (a final non-empty partial line included) and the
/// position just past what was consumed. Line breaks (CR, LF, CR+LF) each
/// start a new line; a backslash-escaped triple quote decodes to three
/// quote characters; everything else is copied through verbatim.
pub open spec fn block_scan(s: Seq<char>, m: int, cur: Seq<char>, acc: Seq<Seq<char>>) -> (Seq<
    Seq<char>,
>, int)
    decreases s.len() - m,
{
    if m < 0 || m >= s.len() {
        (close_lines(acc, cur), m)
    } else if triple_quote_at(s, m) {
        (close_lines(acc, cur), m + 3)
    } else if s[m] == '\r' {
        if m + 1 < s.len() && s[m + 1] == '\n' {
            block_scan(s, m + 2, Seq::empty(), acc.push(cur))
        } else {
            block_scan(s, m + 1, Seq::empty(), acc.push(cur))
        }
    } else if s[m] == '\n' {
        block_scan(s, m + 1, Seq::empty(), acc.push(cur))
    } else if escaped_triple_at(s, m) {
        block_scan(s, m + 4, cur + seq!['"', '"', '"'], acc)
    } else {
        block_scan(s, m + 1, cur.push(s[m]), acc)
    }
}

/// The first line index at or after `i` that is not blank.
pub open spec fn first_nb_from(lines: Seq<Seq<char>>, i: int) -> Option<int>
    decreases lines.len() - i,
{
    if 0 <= i < lines.len() {
        if !is_blank_line(lines[i]) {
            Some(i)
        } else {
            first_nb_from(lines, i + 1)
        }
    } else {
        None
    }
}

/// The last line index at or before `i` that is not blank.
pub open spec fn last_nb_from(lines: Seq<Seq<char>>, i: int) -> Option<int>
    decreases i + 1,
{
    if 0 <= i < lines.len() {
        if !is_blank_line(lines[i]) {
            Some(i)
        } else {
            last_nb_from(lines, i - 1)
        }
    } else {
        None
    }
}

/// The smallest indentation among the non-blank lines at or after index
/// `i`; `None` when every such line is blank.
pub open spec fn min_indent_from(lines: Seq<Seq<char>>, i: int) -> Option<nat>
    decreases lines.len() - i,
{
    if 0 <= i < lines.len() {
        let rest = min_indent_from(lines, i + 1);
        if is_blank_line(lines[i]) {
            rest
        } else {
            let me = indent_from(lines[i], 0);
            match rest {
                None => Some(me),
                Some(r) => if me <= r {
                    Some(me)
                } else {
                    Some(r)
                },
            }
        }
    } else {
        None
    }
}

/// Strips `c` leading characters from a line, clearing lines that are not
/// longer than `c`; with no common indent (`None`) the line is cleared.
pub open spec fn chop_opt(l: Seq<char>, ci: Option<nat>) -> Seq<char> {
    match ci {
        Some(c) => if l.len() > c {
            l.subrange(c as int, l.len() as int)
        } else {
            Seq::empty()
        },
        None => Seq::empty(),
    }
}

/// The dedent transform: strip the common indentation of the non-first
/// lines from every line but the first, and drop blank leading and
/// trailing lines. A wholly blank sequence dedents to the empty sequence.
pub open spec fn dedent_spec(lines: Seq<Seq<char>>) -> Seq<Seq<char>> {
    match (first_nb_from(lines, 0), last_nb_from(lines, lines.len() - 1)) {
        (Some(f), Some(l)) => Seq::new(
            (l - f + 1) as nat,
            |k: int|
                {
                    let idx = f + k;
                    if idx == 0 {
                        lines[0]
                    } else {
                        chop_opt(lines[idx], min_indent_from(lines, 1))
                    }
                },
        ),
        _ => Seq::empty(),
    }
}

/// Replaces every run of three consecutive quotes by a backslash and three
/// quotes, left to right.
pub open spec fn escape_from(s: Seq<char>, i: int, acc: Seq<char>) -> Seq<char>
    decreases s.len() - i,
{
    if 0 <= i < s.len() {
        if triple_quote_at(s, i) {
            escape_from(s, i + 3, acc + seq!['\\', '"', '"', '"'])
        } else {
            escape_from(s, i + 1, acc.push(s[i]))
        }
    } else {
        acc
    }
}

pub open spec fn escape_triples(s: Seq<char>) -> Seq<char> {
    escape_from(s, 0, Seq::empty())
}

/// One carriage return at the end of a line is dropped when the line ends
/// at a line feed.
pub open spec fn strip_cr(l: Seq<char>) -> Seq<char> {
    if l.len() > 0 && l[l.len() - 1] == '\r' {
        l.drop_last()
    } else {
        l
    }
}

/// Splits a text into lines at line feeds, as the standard line iterator
/// does: a carriage return before the line feed is dropped, and a final
/// empty segment after a trailing line feed is not a line.
pub open spec fn lines_from(s: Seq<char>, i: int, cur: Seq<char>, acc: Seq<Seq<char>>) -> Seq<
    Seq<char>,
>
    decreases s.len() - i,
{
    if 0 <= i < s.len() {
        if s[i] == '\n' {
            lines_from(s, i + 1, Seq::empty(), acc.push(strip_cr(cur)))
        } else {
            lines_from(s, i + 1, cur.push(s[i]), acc)
        }
    } else {
        if cur.len() > 0 {
            acc.push(cur)
        } else {
            acc
        }
    }
}

pub open spec fn lines_of(s: Seq<char>) -> Seq<Seq<char>> {
    lines_from(s, 0, Seq::empty(), Seq::empty())
}

/// Every line from index `k` on is empty or begins with indentation.
pub open spec fn all_tail_indented_from(lines: Seq<Seq<char>>, k: int) -> bool
    decreases lines.len() - k,
{
    if 0 <= k < lines.len() {
        (lines[k].len() == 0 || is_gql_ws_char(lines[k][0])) && all_tail_indented_from(
            lines,
            k + 1,
        )
    } else {
        true
    }
}

/// The text spans more than one line and every line after the first is
/// empty or starts with indentation, so a newline is forced right after
/// the opening delimiter.
pub open spec fn force_leading_newline(lines: Seq<Seq<char>>) -> bool {
    lines.len() > 1 && all_tail_indented_from(lines, 1)
}

/// The escaped text ends in a backslash-escaped triple quote.
pub open spec fn has_trailing_triple(e: Seq<char>) -> bool {
    e.len() >= 4 && e[e.len() - 4] == '\\' && e[e.len() - 3] == '"' && e[e.len() - 2] == '"'
        && e[e.len() - 1] == '"'
}

/// The escaped text ends in a bare quote (not one of an escaped triple) or
/// in a backslash, so the newline before the closing delimiter is kept.
pub open spec fn force_trailing_newline(e: Seq<char>) -> bool {
    (e.len() >= 1 && e[e.len() - 1] == '"' && !has_trailing_triple(e)) || (e.len() >= 1
        && e[e.len() - 1] == '\\')
}

/// Each line followed by one line feed, appended to `acc`.
pub open spec fn body_from(lines: Seq<Seq<char>>, k: int, acc: Seq<char>) -> Seq<char>
    decreases lines.len() - k,
{
    if 0 <= k < lines.len() {
        body_from(lines, k + 1, acc + lines[k] + seq!['\n'])
    } else {
        acc
    }
}

pub open spec fn q3() -> Seq<char> {
    seq!['"', '"', '"']
}

/// The re-printed block string, delimiters included: triple quotes are
/// escaped, the text is split into lines and re-joined with one line feed
/// after each, a leading newline is forced when every non-first line is
/// indented, and the final newline is kept only when the text ends in a
/// bare quote or a backslash.
pub open spec fn print_spec(t: Seq<char>) -> Seq<char> {
    let e = escape_triples(t);
    let ls = lines_of(e);
    let lead: Seq<char> = if force_leading_newline(ls) {
        seq!['\n']
    } else {
        Seq::empty()
    };
    let mid = body_from(ls, 0, lead);
    let mid2: Seq<char> = if !force_trailing_newline(e) && mid.len() > 0 && mid[mid.len() - 1]
        == '\n' {
        mid.drop_last()
    } else {
        mid
    };
    q3() + mid2 + q3()
}

/// The dedented lines joined with single line feeds between them.
pub open spec fn join_tail(lines: Seq<Seq<char>>, k: int, acc: Seq<char>) -> Seq<char>
    decreases lines.len() - k,
{
    if 0 <= k < lines.len() {
        join_tail(lines, k + 1, acc + seq!['\n'] + lines[k])
    } else {
        acc
    }
}

pub open spec fn join_nl(lines: Seq<Seq<char>>) -> Seq<char> {
    if lines.len() == 0 {
        Seq::empty()
    } else {
        join_tail(lines, 1, lines[0])
    }
}

/// Whether a character counts as one unit of indentation width.
pub fn is_gql_whitespace(ch: char) -> (r: bool)
    ensures
        r == is_gql_ws_char(ch),
{
    ch == ' ' || ch == '\t'
}

/// The number of leading indentation characters of a line.
pub fn leading_whitespace(s: &str) -> (r: usize)
    ensures
        r == indent_from(s@, 0),
        r <= s@.len(),
{
    let ghost sv = s@;
    let n = s.unicode_len();
    let mut k: usize = 0;
    loop
        invariant_except_break
            n == sv.len(),
            s@ == sv,
            k <= n,
            indent_from(sv, 0) == k + indent_from(sv, k as int),
        ensures
            k <= n,
            k == indent_from(sv, 0),
            s@ == sv,
        decreases n - k,
    {
        if k >= n {
            break ;
        }
        let c = s.get_char(k);
        if is_gql_whitespace(c) {
            k = k + 1;
        } else {
            break ;
        }
    }
    k
}

fn first_nb(lines: &Vec<String>) -> (r: Option<usize>)
    ensures
        match r {
            Some(f) => first_nb_from(views_of(lines@), 0) == Some(f as int),
            None => first_nb_from(views_of(lines@), 0) is None,
        },
{
    let ghost v = views_of(lines@);
    let len = lines.len();
    let mut t: usize = 0;
    loop
        invariant_except_break
            len == lines@.len(),
            v == views_of(lines@),
            t <= len,
            first_nb_from(v, 0) == first_nb_from(v, t as int),
        ensures
            v == views_of(lines@),
            match first_nb_from(v, 0) {
                Some(f) => t < lines@.len() && f == t as int,
                None => t == lines@.len(),
            },
        decreases len - t,
    {
        if t >= len {
            break ;
        }
        let lw = leading_whitespace((&lines[t]).as_str());
        let ll = (&lines[t]).as_str().unicode_len();
        proof {
            assert(v[t as int] == lines@[t as int]@);
        }
        if lw < ll {
            break ;
        }
        t = t + 1;
    }
    if t < lines.len() {
        Some(t)
    } else {
        None
    }
}

fn last_nb(lines: &Vec<String>) -> (r: Option<usize>)
    ensures
        match r {
            Some(l) => last_nb_from(views_of(lines@), lines@.len() - 1) == Some(l as int),
            None => last_nb_from(views_of(lines@), lines@.len() - 1) is None,
        },
{
    let ghost v = views_of(lines@);
    let len = lines.len();
    let mut t: usize = len;
    loop
        invariant_except_break
            len == lines@.len(),
            v == views_of(lines@),
            t <= len,
            last_nb_from(v, len - 1) == last_nb_from(v, t - 1),
        ensures
            v == views_of(lines@),
            match last_nb_from(v, len - 1) {
                Some(l) => t >= 1 && l == t - 1 && t <= len,
                None => t == 0,
            },
        decreases t,
    {
        if t == 0 {
            break ;
        }
        let lw = leading_whitespace((&lines[t - 1]).as_str());
        let ll = (&lines[t - 1]).as_str().unicode_len();
        proof {
            assert(v[t - 1] == lines@[t - 1]@);
        }
        if lw < ll {
            break ;
        }
        t = t - 1;
    }
    if t >= 1 {
        Some(t - 1)
    } else {
        None
    }
}

fn min_indent(lines: &Vec<String>) -> (r: Option<usize>)
    ensures
        match r {
            Some(c) => min_indent_from(views_of(lines@), 1) == Some(c as nat),
            None => min_indent_from(views_of(lines@), 1) is None,
        },
{
    let ghost v = views_of(lines@);
    let len = lines.len();
    let mut cur: Option<usize> = None;
    let mut t: usize = len;
    while t > 1
        invariant
            len == lines@.len(),
            v == views_of(lines@),
            t <= len || (t == 1 && len == 0),
            t >= 1 || len == 0,
            match cur {
                Some(c) => min_indent_from(v, t as int) == Some(c as nat),
                None => min_indent_from(v, t as int) is None,
            },
        decreases t,
    {
        let lw = leading_whitespace((&lines[t - 1]).as_str());
        let ll = (&lines[t - 1]).as_str().unicode_len();
        proof {
            assert(v[t - 1] == lines@[t - 1]@);
        }
        if lw < ll {
            cur = match cur {
                Some(c) => if lw <= c {
                    Some(lw)
                } else {
                    Some(c)
                },
                None => Some(lw),
            };
        }
        t = t - 1;
    }
    proof {
        if len == 0 {
            assert(min_indent_from(v, 1) is None);
        }
    }
    cur
}

/// The dedent transform, in place: strips the common indentation of the
/// non-first lines from every line but the first, and drops blank leading
/// and trailing lines; a wholly blank sequence is cleared.
pub fn dedent_block_lines_mut(lines: &mut Vec<String>)
    ensures
        views_of(final(lines)@) == dedent_spec(views_of(old(lines)@)),
{
    let ghost v = views_of(lines@);
    let f = first_nb(lines);
    let l = last_nb(lines);
    let ci = min_indent(lines);
    match (f, l) {
        (Some(ff), Some(ll)) => {
            proof {
                lemma_first_nb_props(v, 0);
                lemma_last_nb_props(v, v.len() - 1);
            }
            let nlines = lines.len();
            let mut res: Vec<String> = Vec::new();
            let mut idx: usize = ff;
            while idx <= ll
                invariant
                    v == views_of(lines@),
                    nlines == lines@.len(),
                    first_nb_from(v, 0) == Some(ff as int),
                    last_nb_from(v, v.len() - 1) == Some(ll as int),
                    ff <= ll < lines@.len(),
                    match ci {
                        Some(c) => min_indent_from(v, 1) == Some(c as nat),
                        None => min_indent_from(v, 1) is None,
                    },
                    ff <= idx <= ll + 1,
                    views_of(res@) == dedent_spec(v).subrange(0, idx - ff),
                decreases ll + 1 - idx,
            {
                let ghost prev = views_of(res@);
                if idx == 0 {
                    let c = (&lines[0]).clone();
                    res.push(c);
                } else {
                    let llen = (&lines[idx]).as_str().unicode_len();
                    let mut pushed = false;
                    if let Some(cv) = ci {
                        if llen > cv {
                            let chopped = String::from_str(
                                (&lines[idx]).as_str().substring_char(cv, llen),
                            );
                            res.push(chopped);
                            pushed = true;
                        }
                    }
                    if !pushed {
                        res.push(String::new());
                    }
                }
                proof {
                    assert(v[idx as int] == lines@[idx as int]@);
                    assert(dedent_spec(v).len() == ll - ff + 1);
                    assert(views_of(res@) =~= prev.push(res@[res@.len() - 1]@));
                    assert(res@[res@.len() - 1]@ == dedent_spec(v)[idx - ff]);
                    assert(views_of(res@) =~= dedent_spec(v).subrange(0, idx + 1 - ff));
                }
                idx = idx + 1;
            }
            proof {
                assert(dedent_spec(v).subrange(0, ll + 1 - ff) =~= dedent_spec(v));
            }
            *lines = res;
        },
        _ => {
            proof {
                assert(dedent_spec(v) =~= Seq::<Seq<char>>::empty());
            }
            *lines = Vec::new();
        },
    }
}

fn escape_block(s: &str) -> (r: String)
    ensures
        r@ == escape_triples(s@),
{
    let ghost sv = s@;
    let n = s.unicode_len();
    let mut out = String::new();
    let mut i: usize = 0;
    loop
        invariant_except_break
            n == sv.len(),
            s@ == sv,
            i <= n,
            escape_from(sv, 0, Seq::empty()) == escape_from(sv, i as int, out@),
        ensures
            out@ == escape_triples(sv),
        decreases n - i,
    {
        if i >= n {
            break ;
        }
        if n - i >= 3 && s.get_char(i) == '"' && s.get_char(i + 1) == '"' && s.get_char(i + 2)
            == '"' {
            out.append("\\\"\"\"");
            proof {
                reveal_strlit("\\\"\"\"");
                assert(("\\\"\"\"")@ =~= seq!['\\', '"', '"', '"']);
            }
            i = i + 3;
        } else {
            let ghost prevout = out@;
            out.append(s.substring_char(i, i + 1));
            proof {
                assert(sv.subrange(i as int, i + 1) =~= seq![sv[i as int]]);
                assert(out@ =~= prevout.push(sv[i as int]));
            }
            i = i + 1;
        }
    }
    out
}

fn split_lines(s: &str) -> (r: Vec<String>)
    ensures
        views_of(r@) == lines_of(s@),
{
    let ghost sv = s@;
    let n = s.unicode_len();
    let mut acc: Vec<String> = Vec::new();
    let mut cur = String::new();
    let mut i: usize = 0;
    proof {
        assert(views_of(acc@) =~= Seq::<Seq<char>>::empty());
    }
    loop
        invariant_except_break
            n == sv.len(),
            s@ == sv,
            i <= n,
            lines_of(sv) == lines_from(sv, i as int, cur@, views_of(acc@)),
        ensures
            s@ == sv,
            lines_of(sv) == (if cur@.len() > 0 {
                views_of(acc@).push(cur@)
            } else {
                views_of(acc@)
            }),
        decreases n - i,
    {
        if i >= n {
            break ;
        }
        let c = s.get_char(i);
        if c == '\n' {
            let ghost prev = views_of(acc@);
            let ghost oldcur = cur@;
            let clen = cur.as_str().unicode_len();
            if clen > 0 && cur.as_str().get_char(clen - 1) == '\r' {
                let st = String::from_str(cur.as_str().substring_char(0, clen - 1));
                proof {
                    assert(st@ =~= strip_cr(oldcur));
                }
                acc.push(st);
            } else {
                proof {
                    assert(cur@ =~= strip_cr(oldcur));
                }
                acc.push(cur);
            }
            cur = String::new();
            proof {
                assert(views_of(acc@) =~= prev.push(strip_cr(oldcur)));
            }
            i = i + 1;
        } else {
            let ghost prevcur = cur@;
            cur.append(s.substring_char(i, i + 1));
            proof {
                assert(sv.subrange(i as int, i + 1) =~= seq![sv[i as int]]);
                assert(cur@ =~= prevcur.push(sv[i as int]));
            }
            i = i + 1;
        }
    }
    if !cur.as_str().is_empty() {
        let ghost prev = views_of(acc@);
        acc.push(cur);
        proof {
            assert(views_of(acc@) =~= prev.push(acc@[acc@.len() - 1]@));
        }
    }
    acc
}

/// Re-prints a block-string text between fresh triple-quote delimiters:
/// escapes embedded triple quotes, forces a leading newline when every
/// non-first line is indented, and keeps the final newline only when the
/// text ends in a bare quote or a backslash.
pub fn print_block_string(input: &str) -> (r: String)
    ensures
        r@ == print_spec(input@),
{
    let e = escape_block(input);
    let lines = split_lines(e.as_str());
    let ghost ev = e@;
    let ghost lv = views_of(lines@);
    let nl = lines.len();
    let mut force_lead = false;
    if nl > 1 {
        force_lead = true;
        let mut k: usize = 1;
        loop
            invariant_except_break
                lv == views_of(lines@),
                nl == lines@.len(),
                1 <= k <= nl,
                force_lead,
                all_tail_indented_from(lv, 1) == all_tail_indented_from(lv, k as int),
            ensures
                lv == views_of(lines@),
                force_lead == all_tail_indented_from(lv, 1),
            decreases nl - k,
        {
            if k >= nl {
                break ;
            }
            let llen = (&lines[k]).as_str().unicode_len();
            proof {
                assert(lv[k as int] == lines@[k as int]@);
            }
            let ok: bool = if llen == 0 {
                true
            } else {
                is_gql_whitespace((&lines[k]).as_str().get_char(0))
            };
            if !ok {
                force_lead = false;
                break ;
            }
            k = k + 1;
        }
    }
    let elen = e.as_str().unicode_len();
    let has_tt = elen >= 4 && e.as_str().get_char(elen - 4) == '\\' && e.as_str().get_char(
        elen - 3,
    ) == '"' && e.as_str().get_char(elen - 2) == '"' && e.as_str().get_char(elen - 1) == '"';
    let has_tq = elen >= 1 && e.as_str().get_char(elen - 1) == '"' && !has_tt;
    let has_ts = elen >= 1 && e.as_str().get_char(elen - 1) == '\\';
    let force_trail = has_tq || has_ts;
    proof {
        assert(has_tt == has_trailing_triple(ev));
        assert(force_trail == force_trailing_newline(ev));
    }
    let mut mid = String::new();
    if force_lead {
        mid.append("\n");
        proof {
            reveal_strlit("\n");
            assert(mid@ =~= seq!['\n']);
        }
    }
    proof {
        if force_leading_newline(lv) {
            assert(mid@ =~= seq!['\n']);
        } else {
            assert(mid@ =~= Seq::<char>::empty());
        }
    }
    let ghost lead = mid@;
    let mut k2: usize = 0;
    while k2 < nl
        invariant
            lv == views_of(lines@),
            nl == lines@.len(),
            k2 <= nl,
            body_from(lv, 0, lead) == body_from(lv, k2 as int, mid@),
        decreases nl - k2,
    {
        mid.append((&lines[k2]).as_str());
        mid.append("\n");
        proof {
            reveal_strlit("\n");
            assert(lv[k2 as int] == lines@[k2 as int]@);
            assert(("\n")@ =~= seq!['\n']);
        }
        k2 = k2 + 1;
    }
    let midlen = mid.as_str().unicode_len();
    let mut out = String::from_str("\"\"\"");
    proof {
        reveal_strlit("\"\"\"");
        assert(("\"\"\"")@ =~= q3());
    }
    if !force_trail && midlen > 0 && mid.as_str().get_char(midlen - 1) == '\n' {
        out.append(mid.as_str().substring_char(0, midlen - 1));
        proof {
            assert(mid@.subrange(0, midlen - 1) =~= mid@.drop_last());
        }
    } else {
        out.append(mid.as_str());
    }
    out.append("\"\"\"");
    proof {
        assert(out@ =~= print_spec(input@));
    }
    out
}

fn join_lines(lines: &Vec<String>) -> (r: String)
    ensures
        r@ == join_nl(views_of(lines@)),
{
    let ghost lv = views_of(lines@);
    let mut out = String::new();
    let nl = lines.len();
    if nl == 0 {
        return out;
    }
    out.append((&lines[0]).as_str());
    proof {
        assert(lv[0] == lines@[0]@);
        assert(out@ =~= lv[0]);
    }
    let mut k: usize = 1;
    while k < nl
        invariant
            lv == views_of(lines@),
            nl == lines@.len(),
            1 <= k <= nl,
            join_tail(lv, 1, lv[0]) == join_tail(lv, k as int, out@),
        decreases nl - k,
    {
        out.append("\n");
        out.append((&lines[k]).as_str());
        proof {
            reveal_strlit("\n");
            assert(("\n")@ =~= seq!['\n']);
            assert(lv[k as int] == lines@[k as int]@);
        }
        k = k + 1;
    }
    out
}

/// Consumes the raw text of a block string from `pos` (just past the
/// opening delimiter) through the matching closing delimiter, and returns
/// the dedented, re-printed literal (its delimiters included) together
/// with the position just past what was consumed.
pub fn parse_block_string(s: &str, pos: usize) -> (r: (String, usize))
    requires
        pos <= s@.len(),
    ensures
        ({
            let sc = block_scan(s@, pos as int, Seq::empty(), Seq::empty());
            r.1 == sc.1 && r.0@ == print_spec(join_nl(dedent_spec(sc.0)))
        }),
{
    let ghost sv = s@;
    let n = s.unicode_len();
    let mut m: usize = pos;
    let mut cur = String::new();
    let mut lines: Vec<String> = Vec::new();
    proof {
        assert(views_of(lines@) =~= Seq::<Seq<char>>::empty());
    }
    loop
        invariant_except_break
            n == sv.len(),
            s@ == sv,
            pos <= m <= n,
            block_scan(sv, pos as int, Seq::empty(), Seq::empty()) == block_scan(
                sv,
                m as int,
                cur@,
                views_of(lines@),
            ),
        ensures
            s@ == sv,
            m <= n,
            block_scan(sv, pos as int, Seq::empty(), Seq::empty()) == (close_lines(
                views_of(lines@),
                cur@,
            ), m as int),
        decreases n - m,
    {
        if m >= n {
            break ;
        }
        let c = s.get_char(m);
        if c == '"' && n - m >= 3 && s.get_char(m + 1) == '"' && s.get_char(m + 2) == '"' {
            m = m + 3;
            break ;
        }
        if c == '\r' || c == '\n' {
            let ghost prev = views_of(lines@);
            lines.push(cur);
            cur = String::new();
            proof {
                assert(views_of(lines@) =~= prev.push(lines@[lines@.len() - 1]@));
            }
            if c == '\r' && m + 1 < n && s.get_char(m + 1) == '\n' {
                m = m + 2;
            } else {
                m = m + 1;
            }
        } else if c == '\\' && n - m >= 4 && s.get_char(m + 1) == '"' && s.get_char(m + 2) == '"'
            && s.get_char(m + 3) == '"' {
            cur.append("\"\"\"");
            proof {
                reveal_strlit("\"\"\"");
                assert(("\"\"\"")@ =~= seq!['"', '"', '"']);
            }
            m = m + 4;
        } else {
            let ghost prevcur = cur@;
            cur.append(s.substring_char(m, m + 1));
            proof {
                assert(sv.subrange(m as int, m + 1) =~= seq![sv[m as int]]);
                assert(cur@ =~= prevcur.push(sv[m as int]));
            }
            m = m + 1;
        }
    }
    if !cur.as_str().is_empty() {
        let ghost prev = views_of(lines@);
        lines.push(cur);
        proof {
            assert(views_of(lines@) =~= prev.push(lines@[lines@.len() - 1]@));
        }
    }
    let end = m;
    dedent_block_lines_mut(&mut lines);
    let joined = join_lines(&lines);
    let printed = print_block_string(joined.as_str());
    (printed, end)
}

proof fn lemma_push_blank_first_nb(lines: Seq<Seq<char>>, b: Seq<char>, i: int)
    requires
        is_blank_line(b),
        0 <= i <= lines.len(),
    ensures
        first_nb_from(lines.push(b), i) == first_nb_from(lines, i),
    decreases lines.len() - i,
{
    let p = lines.push(b);
    if i < lines.len() {
        assert(p[i] == lines[i]);
        if is_blank_line(lines[i]) {
            lemma_push_blank_first_nb(lines, b, i + 1);
        }
    } else {
        assert(p[i] == b);
        assert(first_nb_from(p, i + 1) is None);
    }
}

proof fn lemma_push_blank_last_nb(lines: Seq<Seq<char>>, b: Seq<char>, i: int)
    requires
        is_blank_line(b),
        i < lines.len(),
    ensures
        last_nb_from(lines.push(b), i) == last_nb_from(lines, i),
    decreases i + 1,
{
    let p = lines.push(b);
    if 0 <= i {
        assert(p[i] == lines[i]);
        if is_blank_line(lines[i]) {
            lemma_push_blank_last_nb(lines, b, i - 1);
        }
    }
}

proof fn lemma_push_blank_min_indent(lines: Seq<Seq<char>>, b: Seq<char>, i: int)
    requires
        is_blank_line(b),
        0 <= i <= lines.len(),
    ensures
        min_indent_from(lines.push(b), i) == min_indent_from(lines, i),
    decreases lines.len() - i,
{
    let p = lines.push(b);
    if i < lines.len() {
        assert(p[i] == lines[i]);
        lemma_push_blank_min_indent(lines, b, i + 1);
    } else {
        assert(p[i] == b);
        assert(min_indent_from(p, i + 1) is None);
        assert(min_indent_from(lines, i) is None);
    }
}

/// Dedent invariance, trailing half: appending one more blank line to the
/// raw line sequence does not change the dedented lines.
pub proof fn lemma_dedent_trailing_blank(lines: Seq<Seq<char>>, b: Seq<char>)
    requires
        is_blank_line(b),
    ensures
        dedent_spec(lines.push(b)) == dedent_spec(lines),
{
    let p = lines.push(b);
    lemma_push_blank_first_nb(lines, b, 0);
    assert(p[lines.len() as int] == b);
    if lines.len() > 0 {
        lemma_push_blank_min_indent(lines, b, 1);
        lemma_push_blank_last_nb(lines, b, lines.len() - 1);
    } else {
        assert(min_indent_from(p, 1) is None);
        assert(min_indent_from(lines, 1) is None);
        assert(last_nb_from(p, -1) is None);
        assert(last_nb_from(lines, -1) is None);
    }
    assert(last_nb_from(p, p.len() - 1) == last_nb_from(lines, lines.len() - 1));
    match (first_nb_from(lines, 0), last_nb_from(lines, lines.len() - 1)) {
        (Some(f), Some(l)) => {
            lemma_first_nb_props(lines, 0);
            lemma_last_nb_props(lines, lines.len() - 1);
            assert forall|k: int| 0 <= k < l - f + 1 implies dedent_spec(p)[k] == dedent_spec(
                lines,
            )[k] by {
                assert(p[f + k] == lines[f + k]);
            }
            assert(dedent_spec(p) =~= dedent_spec(lines));
        },
        _ => {
            assert(dedent_spec(p) =~= dedent_spec(lines));
        },
    }
}

proof fn lemma_cons_blank_first_nb(lines: Seq<Seq<char>>, b: Seq<char>, i: int)
    requires
        0 <= i <= lines.len(),
    ensures
        ({
            let p = seq![b] + lines;
            match first_nb_from(lines, i) {
                Some(f) => first_nb_from(p, i + 1) == Some(f + 1),
                None => first_nb_from(p, i + 1) is None,
            }
        }),
    decreases lines.len() - i,
{
    let p = seq![b] + lines;
    if i < lines.len() {
        assert(p[i + 1] == lines[i]);
        if is_blank_line(lines[i]) {
            lemma_cons_blank_first_nb(lines, b, i + 1);
        }
    }
}

proof fn lemma_cons_blank_last_nb(lines: Seq<Seq<char>>, b: Seq<char>, i: int)
    requires
        is_blank_line(b),
        -1 <= i < lines.len(),
    ensures
        ({
            let p = seq![b] + lines;
            match last_nb_from(lines, i) {
                Some(l) => last_nb_from(p, i + 1) == Some(l + 1),
                None => last_nb_from(p, i + 1) is None,
            }
        }),
    decreases i + 1,
{
    let p = seq![b] + lines;
    if i >= 0 {
        assert(p[i + 1] == lines[i]);
        if is_blank_line(lines[i]) {
            lemma_cons_blank_last_nb(lines, b, i - 1);
        }
    } else {
        assert(p[0] == b);
        assert(last_nb_from(p, -1) is None);
        assert(last_nb_from(p, 0) is None);
    }
}

proof fn lemma_cons_blank_min_indent(lines: Seq<Seq<char>>, b: Seq<char>, i: int)
    requires
        0 <= i <= lines.len(),
    ensures
        min_indent_from(seq![b] + lines, i + 1) == min_indent_from(lines, i),
    decreases lines.len() - i,
{
    let p = seq![b] + lines;
    if i < lines.len() {
        assert(p[i + 1] == lines[i]);
        lemma_cons_blank_min_indent(lines, b, i + 1);
    }
}

/// Dedent invariance, leading half: when the raw line sequence already
/// starts with a blank line, putting one more blank line in front of it
/// does not change the dedented lines. (Without a blank first line this
/// fails: the first line keeps its indentation, so `[" a"]` dedents to
/// `[" a"]` while `["", " a"]` dedents to `["a"]`.)
pub proof fn lemma_dedent_leading_blank(lines: Seq<Seq<char>>, b: Seq<char>)
    requires
        is_blank_line(b),
        lines.len() > 0,
        is_blank_line(lines[0]),
    ensures
        dedent_spec(seq![b] + lines) == dedent_spec(lines),
{
    let p = seq![b] + lines;
    assert(p[0] == b);
    lemma_cons_blank_first_nb(lines, b, 0);
    lemma_cons_blank_last_nb(lines, b, lines.len() - 1);
    lemma_cons_blank_min_indent(lines, b, 1);
    assert(min_indent_from(lines, 0) == min_indent_from(lines, 1));
    match (first_nb_from(lines, 0), last_nb_from(lines, lines.len() - 1)) {
        (Some(f), Some(l)) => {
            lemma_first_nb_props(lines, 0);
            lemma_last_nb_props(lines, lines.len() - 1);
            assert(f >= 1);
            assert(first_nb_from(p, 0) == Some(f + 1));
            assert(last_nb_from(p, p.len() - 1) == Some(l + 1));
            assert forall|k: int| 0 <= k < l - f + 1 implies dedent_spec(p)[k] == dedent_spec(
                lines,
            )[k] by {
                assert(p[f + 1 + k] == lines[f + k]);
                assert(min_indent_from(p, 1) == min_indent_from(lines, 0));
            }
            assert(dedent_spec(p) =~= dedent_spec(lines));
        },
        _ => {
            if last_nb_from(lines, lines.len() - 1) is None {
                assert(last_nb_from(p, p.len() - 1) is None);
            } else {
                assert(first_nb_from(p, 0) == first_nb_from(p, 1));
                assert(first_nb_from(p, 0) is None);
            }
            assert(dedent_spec(p) =~= dedent_spec(lines));
        },
    }
}

/// Every non-first line with `p` put in front of its text; the first line
/// is left alone, as the dedent never touches it.
pub open spec fn pad_lines(lines: Seq<Seq<char>>, p: Seq<char>) -> Seq<Seq<char>> {
    Seq::new(
        lines.len(),
        |k: int|
            if k == 0 {
                lines[0]
            } else {
                p + lines[k]
            },
    )
}

pub open spec fn all_gql_ws(p: Seq<char>) -> bool {
    forall|q: int| 0 <= q < p.len() ==> is_gql_ws_char(p[q])
}

proof fn lemma_indent_shift(p: Seq<char>, l: Seq<char>, t: int)
    requires
        0 <= t <= l.len(),
    ensures
        indent_from(p + l, p.len() + t) == indent_from(l, t),
    decreases l.len() - t,
{
    if t < l.len() {
        assert((p + l)[p.len() + t] == l[t]);
        if is_gql_ws_char(l[t]) {
            lemma_indent_shift(p, l, t + 1);
        }
    }
}

proof fn lemma_indent_pad(p: Seq<char>, l: Seq<char>, i: int)
    requires
        all_gql_ws(p),
        0 <= i <= p.len(),
    ensures
        indent_from(p + l, i) == p.len() - i + indent_from(l, 0),
    decreases p.len() - i,
{
    if i < p.len() {
        assert((p + l)[i] == p[i]);
        lemma_indent_pad(p, l, i + 1);
    } else {
        lemma_indent_shift(p, l, 0);
    }
}

proof fn lemma_blank_pad(p: Seq<char>, l: Seq<char>)
    requires
        all_gql_ws(p),
    ensures
        is_blank_line(p + l) == is_blank_line(l),
{
    lemma_indent_pad(p, l, 0);
    lemma_indent_le(l, 0);
    lemma_indent_le(p + l, 0);
}

proof fn lemma_pad_first_nb(lines: Seq<Seq<char>>, p: Seq<char>, i: int)
    requires
        all_gql_ws(p),
        0 <= i <= lines.len(),
    ensures
        first_nb_from(pad_lines(lines, p), i) == first_nb_from(lines, i),
    decreases lines.len() - i,
{
    let pl = pad_lines(lines, p);
    if i < lines.len() {
        if i > 0 {
            lemma_blank_pad(p, lines[i]);
        }
        assert(is_blank_line(pl[i]) == is_blank_line(lines[i]));
        if is_blank_line(lines[i]) {
            lemma_pad_first_nb(lines, p, i + 1);
        }
    }
}

proof fn lemma_pad_last_nb(lines: Seq<Seq<char>>, p: Seq<char>, i: int)
    requires
        all_gql_ws(p),
        i < lines.len(),
    ensures
        last_nb_from(pad_lines(lines, p), i) == last_nb_from(lines, i),
    decreases i + 1,
{
    let pl = pad_lines(lines, p);
    if i >= 0 {
        if i > 0 {
            lemma_blank_pad(p, lines[i]);
        }
        assert(is_blank_line(pl[i]) == is_blank_line(lines[i]));
        if is_blank_line(lines[i]) {
            lemma_pad_last_nb(lines, p, i - 1);
        }
    }
}

proof fn lemma_pad_min_indent(lines: Seq<Seq<char>>, p: Seq<char>, i: int)
    requires
        all_gql_ws(p),
        1 <= i <= lines.len(),
    ensures
        ({
            match min_indent_from(lines, i) {
                Some(m) => min_indent_from(pad_lines(lines, p), i) == Some((m + p.len()) as nat),
                None => min_indent_from(pad_lines(lines, p), i) is None,
            }
        }),
    decreases lines.len() - i,
{
    let pl = pad_lines(lines, p);
    if i < lines.len() {
        lemma_blank_pad(p, lines[i]);
        lemma_indent_pad(p, lines[i], 0);
        assert(pl[i] == p + lines[i]);
        lemma_pad_min_indent(lines, p, i + 1);
    }
}

/// Dedent invariance, round-trip half: putting a shared run of
/// indentation characters in front of every non-first line and dedenting
/// gives the same lines as dedenting the unpadded sequence.
pub proof fn lemma_dedent_pad_round_trip(lines: Seq<Seq<char>>, p: Seq<char>)
    requires
        all_gql_ws(p),
    ensures
        dedent_spec(pad_lines(lines, p)) == dedent_spec(lines),
{
    let pl = pad_lines(lines, p);
    lemma_pad_first_nb(lines, p, 0);
    if lines.len() > 0 {
        lemma_pad_last_nb(lines, p, lines.len() - 1);
        lemma_pad_min_indent(lines, p, 1);
    }
    match (first_nb_from(lines, 0), last_nb_from(lines, lines.len() - 1)) {
        (Some(f), Some(l)) => {
            lemma_first_nb_props(lines, 0);
            lemma_last_nb_props(lines, lines.len() - 1);
            assert forall|k: int| 0 <= k < l - f + 1 implies dedent_spec(pl)[k] == dedent_spec(
                lines,
            )[k] by {
                let idx = f + k;
                if idx > 0 {
                    assert(pl[idx] == p + lines[idx]);
                    match min_indent_from(lines, 1) {
                        Some(m) => {
                            let lm = lines[idx];
                            if lm.len() > m {
                                assert((p + lm).subrange(
                                    p.len() + m as int,
                                    (p + lm).len() as int,
                                ) =~= lm.subrange(m as int, lm.len() as int));
                            }
                            assert(chop_opt(pl[idx], min_indent_from(pl, 1)) == chop_opt(
                                lines[idx],
                                min_indent_from(lines, 1),
                            ));
                        },
                        None => {},
                    }
                }
            }
            assert(dedent_spec(pl) =~= dedent_spec(lines));
        },
        _ => {
            assert(dedent_spec(pl) =~= dedent_spec(lines));
        },
    }
}

/// The block-string scan stays inside the text and never moves backwards.
pub proof fn lemma_block_scan_le(s: Seq<char>, m: int, cur: Seq<char>, acc: Seq<Seq<char>>)
    requires
        0 <= m <= s.len(),
    ensures
        m <= block_scan(s, m, cur, acc).1 <= s.len(),
    decreases s.len() - m,
{
    if m < s.len() {
        if triple_quote_at(s, m) {
        } else if s[m] == '\r' {
            if m + 1 < s.len() && s[m + 1] == '\n' {
                lemma_block_scan_le(s, m + 2, Seq::empty(), acc.push(cur));
            } else {
                lemma_block_scan_le(s, m + 1, Seq::empty(), acc.push(cur));
            }
        } else if s[m] == '\n' {
            lemma_block_scan_le(s, m + 1, Seq::empty(), acc.push(cur));
        } else if escaped_triple_at(s, m) {
            lemma_block_scan_le(s, m + 4, cur + seq!['"', '"', '"'], acc);
        } else {
            lemma_block_scan_le(s, m + 1, cur.push(s[m]), acc);
        }
    }
}

pub proof fn lemma_first_nb_props(v: Seq<Seq<char>>, i: int)
    requires
        0 <= i <= v.len(),
    ensures
        match first_nb_from(v, i) {
            Some(f) => i <= f < v.len() && !is_blank_line(v[f]) && (forall|q: int|
                i <= q < f ==> is_blank_line(v[q])),
            None => forall|q: int| i <= q < v.len() ==> is_blank_line(v[q]),
        },
    decreases v.len() - i,
{
    if i < v.len() && is_blank_line(v[i]) {
        lemma_first_nb_props(v, i + 1);
    }
}

pub proof fn lemma_last_nb_props(v: Seq<Seq<char>>, i: int)
    requires
        i < v.len(),
    ensures
        match last_nb_from(v, i) {
            Some(l) => 0 <= l <= i && !is_blank_line(v[l]) && (forall|q: int|
                l < q <= i ==> is_blank_line(v[q])),
            None => forall|q: int| 0 <= q <= i ==> is_blank_line(v[q]),
        },
    decreases i + 1,
{
    if 0 <= i && is_blank_line(v[i]) {
        lemma_last_nb_props(v, i - 1);
    }
}

} // verus!
