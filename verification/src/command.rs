//! The master's command line: splitting a typed line into words and
//! reading the command they name.

use vstd::prelude::*;
use vstd::string::StringExecFns;
use hyper::Url;
use crate::text::{chars_of, chars_to_string};

verus! {

/// What a line typed at the master asks for.
#[derive(Debug)]
pub enum Op {
    AddSlave(Url),
    ListSlaves,
    IvFile(String),
    CipherFile(String),
    Start,
}

/// The characters that `char::is_whitespace` accepts: those with the
/// Unicode `White_Space` property.
pub open spec fn is_white(c: char) -> bool {
    let u = c as u32;
    ||| 0x09 <= u <= 0x0d
    ||| u == 0x20
    ||| u == 0x85
    ||| u == 0xa0
    ||| u == 0x1680
    ||| 0x2000 <= u <= 0x200a
    ||| u == 0x2028
    ||| u == 0x2029
    ||| u == 0x202f
    ||| u == 0x205f
    ||| u == 0x3000
}

/// `s` without its leading white space.
pub open spec fn trim_start(s: Seq<char>) -> Seq<char>
    decreases s.len(),
{
    if s.len() > 0 && is_white(s[0]) {
        trim_start(s.drop_first())
    } else {
        s
    }
}

/// `s` without its trailing white space.
pub open spec fn trim_end(s: Seq<char>) -> Seq<char>
    decreases s.len(),
{
    if s.len() > 0 && is_white(s.last()) {
        trim_end(s.drop_last())
    } else {
        s
    }
}

/// `s` without leading or trailing white space.
pub open spec fn trimmed(s: Seq<char>) -> Seq<char> {
    trim_end(trim_start(s))
}

/// The pieces of `s` between single spaces, empty pieces included: a line
/// with `k` spaces has `k + 1` pieces.
pub open spec fn space_pieces(s: Seq<char>) -> Seq<Seq<char>>
    decreases s.len(),
{
    if s.len() == 0 {
        seq![seq![]]
    } else {
        let rest = space_pieces(s.drop_last());
        if s.last() == ' ' {
            rest.push(seq![])
        } else {
            rest.update(rest.len() - 1, rest.last().push(s.last()))
        }
    }
}

/// The words of a typed line: its pieces between single spaces, each
/// trimmed of white space.
pub open spec fn words(s: Seq<char>) -> Seq<Seq<char>> {
    space_pieces(s).map_values(|p: Seq<char>| trimmed(p))
}

proof fn lemma_space_pieces_nonempty(s: Seq<char>)
    ensures
        space_pieces(s).len() >= 1,
    decreases s.len(),
{
    if s.len() > 0 {
        lemma_space_pieces_nonempty(s.drop_last());
    }
}

fn is_white_char(c: char) -> (r: bool)
    ensures
        r == is_white(c),
{
    let u = c as u32;
    (0x09 <= u && u <= 0x0d) || u == 0x20 || u == 0x85 || u == 0xa0 || u == 0x1680 || (0x2000
        <= u && u <= 0x200a) || u == 0x2028 || u == 0x2029 || u == 0x202f || u == 0x205f || u
        == 0x3000
}

proof fn lemma_trim_start_skip(s: Seq<char>, a: int)
    requires
        0 <= a <= s.len(),
        forall|i: int| 0 <= i < a ==> is_white(s[i]),
        a < s.len() ==> !is_white(s[a]),
    ensures
        trim_start(s) == s.skip(a),
    decreases a,
{
    if a > 0 {
        lemma_trim_start_skip(s.drop_first(), a - 1);
        assert(s.drop_first().skip(a - 1) =~= s.skip(a));
    } else {
        assert(s.skip(0) =~= s);
    }
}

proof fn lemma_trim_end_take(s: Seq<char>, b: int)
    requires
        0 <= b <= s.len(),
        forall|i: int| b <= i < s.len() ==> is_white(s[i]),
        b > 0 ==> !is_white(s[b - 1]),
    ensures
        trim_end(s) == s.take(b),
    decreases s.len() - b,
{
    if b < s.len() {
        lemma_trim_end_take(s.drop_last(), b);
        assert(s.drop_last().take(b) =~= s.take(b));
    } else {
        assert(s.take(b) =~= s);
    }
}

/// `piece` trimmed of leading and trailing white space.
fn trim_chars(piece: &Vec<char>) -> (r: Vec<char>)
    ensures
        r@ == trimmed(piece@),
{
    let n = piece.len();
    let mut a: usize = 0;
    while a < n && is_white_char(piece[a])
        invariant
            a <= n == piece@.len(),
            forall|i: int| 0 <= i < a ==> is_white(piece@[i]),
        decreases n - a,
    {
        a += 1;
    }
    let mut b: usize = n;
    while b > a && is_white_char(piece[b - 1])
        invariant
            a <= b <= n == piece@.len(),
            forall|i: int| b <= i < n ==> is_white(piece@[i]),
        decreases b,
    {
        b -= 1;
    }
    let mut r: Vec<char> = Vec::new();
    let mut k: usize = a;
    while k < b
        invariant
            a <= k <= b <= n == piece@.len(),
            r@ == piece@.subrange(a as int, k as int),
        decreases b - k,
    {
        r.push(piece[k]);
        k += 1;
        assert(r@ =~= piece@.subrange(a as int, k as int));
    }
    proof {
        lemma_trim_start_skip(piece@, a as int);
        let t = piece@.skip(a as int);
        if b > a {
            lemma_trim_end_take(t, b - a);
        } else {
            assert forall|i: int| 0 <= i < t.len() implies is_white(t[i]) by {
                assert(t[i] == piece@[a + i]);
            }
            lemma_trim_end_take(t, 0);
        }
        assert(t.take(b - a) =~= piece@.subrange(a as int, b as int));
    }
    r
}

/// Splits a typed line at every single space and trims each piece of white
/// space.
pub fn sanitize(input: String) -> (r: Vec<String>)
    ensures
        r@.len() == words(input@).len(),
        forall|i: int| 0 <= i < r@.len() ==> #[trigger] r@[i]@ == words(input@)[i],
{
    let chars = chars_of(input.as_str());
    let n = chars.len();
    let mut pieces: Vec<Vec<char>> = Vec::new();
    let mut current: Vec<char> = Vec::new();
    let mut k: usize = 0;
    while k < n
        invariant
            k <= n == chars@.len(),
            chars@ == input@,
            pieces@.len() + 1 == space_pieces(chars@.take(k as int)).len(),
            forall|i: int|
                0 <= i < pieces@.len() ==> #[trigger] pieces@[i]@ == space_pieces(
                    chars@.take(k as int),
                )[i],
            current@ == space_pieces(chars@.take(k as int)).last(),
        decreases n - k,
    {
        let ghost before = chars@.take(k as int);
        let c = chars[k];
        if c == ' ' {
            pieces.push(current);
            current = Vec::new();
        } else {
            current.push(c);
        }
        k += 1;
        proof {
            let now = chars@.take(k as int);
            assert(now.drop_last() =~= before);
            assert(now.last() == c);
            lemma_space_pieces_nonempty(before);
            assert(current@ =~= space_pieces(now).last());
        }
    }
    pieces.push(current);
    assert(chars@.take(n as int) =~= input@);
    let ghost all = space_pieces(input@);
    assert(pieces@.len() == all.len());
    assert(forall|i: int| 0 <= i < pieces@.len() ==> #[trigger] pieces@[i]@ == all[i]);
    let mut out: Vec<String> = Vec::new();
    let mut j: usize = 0;
    while j < pieces.len()
        invariant
            j <= pieces@.len() == all.len(),
            forall|i: int| 0 <= i < pieces@.len() ==> #[trigger] pieces@[i]@ == all[i],
            out@.len() == j,
            forall|i: int| 0 <= i < j ==> #[trigger] out@[i]@ == trimmed(all[i]),
        decreases pieces.len() - j,
    {
        let t = trim_chars(&pieces[j]);
        out.push(chars_to_string(&t));
        j += 1;
    }
    out
}

/// What `url::Url::from_str` makes of `text`: the URL it parses, or the
/// text of the error it refuses the input with.
pub uninterp spec fn url_parse(text: Seq<char>) -> Result<Url, Seq<char>>;

/// `Url::from_str` (hyper's re-export of `url::Url`), with a refusal turned
/// into the text of its error.  What it returns, URL or error text, is
/// `url_parse` of `raw`: it depends on `raw` alone.
#[verifier::external_body]
fn parse_url(raw: &str) -> (r: Result<Url, String>)
    ensures
        r is Ok ==> url_parse(raw@) == Ok::<Url, Seq<char>>(r->Ok_0),
        r is Err ==> url_parse(raw@) == Err::<Url, Seq<char>>(r->Err_0@),
{
    raw.parse::<Url>().map_err(|e| e.to_string())
}

/// What reading the words `w` as a command gives: the outcome `r` that
/// the first word selects.
pub open spec fn parse_outcome(w: Seq<Seq<char>>, r: Result<Op, String>) -> bool {
    if w[0] == "slave"@ {
        match url_parse(w[1]) {
            Ok(u) => (r matches Ok(Op::AddSlave(v)) && v == u),
            Err(m) => (r matches Err(e) && e@ == m),
        }
    } else if w[0] == "list"@ {
        r matches Ok(Op::ListSlaves)
    } else if w[0] == "start"@ {
        r matches Ok(Op::Start)
    } else if w[0] == "iv-file"@ {
        r matches Ok(Op::IvFile(f)) && f@ == w[1]
    } else if w[0] == "cipher-file"@ {
        r matches Ok(Op::CipherFile(f)) && f@ == w[1]
    } else {
        r matches Err(m) && m@ == "command not supported"@
    }
}

/// The pieces put back together with a single space between neighbours.
pub open spec fn join_with_spaces(ps: Seq<Seq<char>>) -> Seq<char>
    decreases ps.len(),
{
    if ps.len() == 0 {
        seq![]
    } else if ps.len() == 1 {
        ps[0]
    } else {
        join_with_spaces(ps.drop_last()) + seq![' '] + ps.last()
    }
}

proof fn lemma_join_extend_last(ps: Seq<Seq<char>>, c: char)
    requires
        ps.len() >= 1,
    ensures
        join_with_spaces(ps.update(ps.len() - 1, ps.last().push(c))) == join_with_spaces(ps).push(
            c,
        ),
{
    let qs = ps.update(ps.len() - 1, ps.last().push(c));
    if ps.len() > 1 {
        assert(qs.drop_last() =~= ps.drop_last());
        assert(join_with_spaces(qs) =~= join_with_spaces(ps).push(c));
    }
}

/// A line is cut at its spaces and nowhere else: no piece holds a space,
/// every other character stays where it was, and the pieces joined with
/// single spaces give back the line.
pub proof fn lemma_space_pieces_cut_at_spaces(s: Seq<char>)
    ensures
        join_with_spaces(space_pieces(s)) == s,
        forall|i: int, j: int|
            0 <= i < space_pieces(s).len() && 0 <= j < space_pieces(s)[i].len() ==> #[trigger] space_pieces(
                s,
            )[i][j] != ' ',
    decreases s.len(),
{
    if s.len() == 0 {
        assert(space_pieces(s) =~= seq![Seq::<char>::empty()]);
        assert(join_with_spaces(space_pieces(s)) =~= s);
    } else {
        let t = s.drop_last();
        lemma_space_pieces_cut_at_spaces(t);
        lemma_space_pieces_nonempty(t);
        let rest = space_pieces(t);
        if s.last() == ' ' {
            let ps = rest.push(seq![]);
            assert(ps.drop_last() =~= rest);
            assert(join_with_spaces(ps) =~= s);
            assert forall|i: int, j: int|
                0 <= i < ps.len() && 0 <= j < ps[i].len() implies #[trigger] ps[i][j] != ' ' by {
                if i < rest.len() {
                    assert(ps[i] == rest[i]);
                }
            }
        } else {
            let ps = rest.update(rest.len() - 1, rest.last().push(s.last()));
            lemma_join_extend_last(rest, s.last());
            assert(join_with_spaces(ps) =~= s);
            assert forall|i: int, j: int|
                0 <= i < ps.len() && 0 <= j < ps[i].len() implies #[trigger] ps[i][j] != ' ' by {
                if i < rest.len() - 1 {
                    assert(ps[i] == rest[i]);
                } else {
                    assert(ps[i] == rest[i].push(s.last()));
                    if j < rest[i].len() {
                        assert(ps[i][j] == rest[i][j]);
                    }
                }
            }
        }
    }
}

/// A command is read from its first two words alone: words after the
/// second never change the outcome, the file of `iv-file` and
/// `cipher-file` is the second word, and `slave` adds the URL the parser
/// makes of the second word.
pub proof fn lemma_parse_reads_two_words(w: Seq<Seq<char>>, r: Result<Op, String>)
    requires
        w.len() >= 2,
    ensures
        parse_outcome(w, r) == parse_outcome(w.take(2), r),
        parse_outcome(w, r) && w[0] == "iv-file"@ ==> (r matches Ok(Op::IvFile(f)) && f@ == w[1]),
        parse_outcome(w, r) && w[0] == "cipher-file"@ ==> (r matches Ok(Op::CipherFile(f)) && f@
            == w[1]),
        parse_outcome(w, r) && w[0] == "slave"@ && url_parse(w[1]) is Ok ==> (r matches Ok(
            Op::AddSlave(u),
        ) && u == url_parse(w[1])->Ok_0),
{
    reveal_strlit("slave");
    reveal_strlit("list");
    reveal_strlit("start");
    reveal_strlit("iv-file");
    reveal_strlit("cipher-file");
    let v = w.take(2);
    assert(v[0] == w[0] && v[1] == w[1]);
}

/// Reads the command that the words of a line name.  `slave <url>` adds a
/// slave, `list` lists them, `start` starts the search, `iv-file <name>` and
/// `cipher-file <name>` name the files to read; anything else is refused.
pub fn parse(value: Vec<String>) -> (r: Result<Op, String>)
    requires
        value@.len() >= 1,
        value@[0]@ == "slave"@ || value@[0]@ == "iv-file"@ || value@[0]@ == "cipher-file"@
            ==> value@.len() >= 2,
    ensures
        parse_outcome(value@.map_values(|w: String| w@), r),
{
    if value[0] == String::from_str("slave") {
        let raw = &value[1];
        match parse_url(raw.as_str()) {
            Ok(url) => Ok(Op::AddSlave(url)),
            Err(e) => Err(e),
        }
    } else if value[0] == String::from_str("list") {
        Ok(Op::ListSlaves)
    } else if value[0] == String::from_str("start") {
        Ok(Op::Start)
    } else if value[0] == String::from_str("iv-file") {
        let raw = &value[1];
        Ok(Op::IvFile(raw.clone()))
    } else if value[0] == String::from_str("cipher-file") {
        let raw = &value[1];
        Ok(Op::CipherFile(raw.clone()))
    } else {
        Err(String::from_str("command not supported"))
    }
}

} // verus!
