use vstd::prelude::*;
use vstd::string::StrSliceExecFns;

verus! {

/// The first position at or after `pos` whose character is not `c`, or the
/// length of the text.
pub open spec fn skip_char(s: Seq<char>, pos: int, c: char) -> int
    decreases s.len() - pos,
{
    if pos < 0 || pos >= s.len() {
        s.len() as int
    } else if s[pos] == c {
        skip_char(s, pos + 1, c)
    } else {
        pos
    }
}

/// What expanding a leading tilde yields: a path not starting with `~` is
/// kept; a bare `~` is the home directory; otherwise the leading tildes and
/// the slashes after them are dropped and the rest is joined under home.
pub open spec fn spec_expand(path: Seq<char>, home: Seq<char>) -> Seq<char> {
    if path.len() == 0 || path[0] != '~' {
        path
    } else if path.len() == 1 {
        home
    } else {
        let a = skip_char(path, 0, '~');
        let b = skip_char(path, a, '/');
        home + seq!['/'] + path.subrange(b, path.len() as int)
    }
}

/// `skip_char` lands on the first other character.
proof fn lemma_skip_char(s: Seq<char>, pos: int, c: char)
    requires
        0 <= pos <= s.len(),
    ensures
        pos <= skip_char(s, pos, c) <= s.len(),
        skip_char(s, pos, c) < s.len() ==> s[skip_char(s, pos, c)] != c,
        forall|k: int| pos <= k < skip_char(s, pos, c) ==> s[k] == c,
    decreases s.len() - pos,
{
    if pos < s.len() && s[pos] == c {
        lemma_skip_char(s, pos + 1, c);
    }
}

/// Scan past a run of one character.
fn skip_char_x(s: &str, pos: usize, c: char) -> (r: usize)
    requires
        pos <= s@.len(),
    ensures
        r == skip_char(s@, pos as int, c),
        pos <= r <= s@.len(),
{
    proof {
        lemma_skip_char(s@, pos as int, c);
    }
    let ghost g = skip_char(s@, pos as int, c);
    let n = s.unicode_len();
    let mut i = pos;
    while i < n && s.get_char(i) == c
        invariant
            pos <= i <= n,
            n == s@.len(),
            forall|k: int| pos <= k < i ==> s@[k] == c,
            g == skip_char(s@, pos as int, c),
            i <= g,
        decreases n - i,
    {
        proof {
            lemma_skip_char(s@, pos as int, c);
            if i + 1 > g {
                assert(s@[g] != c);
            }
        }
        i = i + 1;
    }
    proof {
        lemma_skip_char(s@, pos as int, c);
        if i < g {
            assert(s@[i as int] == c);
        }
    }
    i
}

/// Expand a leading `~` in `path` against the given home directory: `~`
/// alone becomes home, `~/rest` (with any run of tildes and slashes) becomes
/// `home/rest`, and anything else is returned unchanged.
pub fn expand_path(path: &str, home: &str) -> (r: String)
    ensures
        r@ == spec_expand(path@, home@),
{
    let n = path.unicode_len();
    if n == 0 || path.get_char(0) != '~' {
        let mut out: Vec<char> = Vec::new();
        let mut i: usize = 0;
        while i < n
            invariant
                i <= n,
                n == path@.len(),
                out@ == path@.subrange(0, i as int),
            decreases n - i,
        {
            out.push(path.get_char(i));
            proof {
                assert(out@ =~= path@.subrange(0, i + 1));
            }
            i = i + 1;
        }
        proof {
            assert(path@.subrange(0, n as int) =~= path@);
        }
        return string_from_chars(&out);
    }
    if n == 1 {
        let mut out: Vec<char> = Vec::new();
        let hn = home.unicode_len();
        let mut i: usize = 0;
        while i < hn
            invariant
                i <= hn,
                hn == home@.len(),
                out@ == home@.subrange(0, i as int),
            decreases hn - i,
        {
            out.push(home.get_char(i));
            proof {
                assert(out@ =~= home@.subrange(0, i + 1));
            }
            i = i + 1;
        }
        proof {
            assert(home@.subrange(0, hn as int) =~= home@);
        }
        return string_from_chars(&out);
    }
    let a = skip_char_x(path, 0, '~');
    let b = skip_char_x(path, a, '/');
    let mut out: Vec<char> = Vec::new();
    let hn = home.unicode_len();
    let mut i: usize = 0;
    while i < hn
        invariant
            i <= hn,
            hn == home@.len(),
            out@ == home@.subrange(0, i as int),
        decreases hn - i,
    {
        out.push(home.get_char(i));
        proof {
            assert(out@ =~= home@.subrange(0, i + 1));
        }
        i = i + 1;
    }
    proof {
        assert(home@.subrange(0, hn as int) =~= home@);
    }
    out.push('/');
    let mut k = b;
    while k < n
        invariant
            b <= k <= n,
            n == path@.len(),
            out@ == home@ + seq!['/'] + path@.subrange(b as int, k as int),
        decreases n - k,
    {
        out.push(path.get_char(k));
        proof {
            assert(out@ =~= home@ + seq!['/'] + path@.subrange(b as int, k + 1));
        }
        k = k + 1;
    }
    proof {
        assert(out@ =~= spec_expand(path@, home@));
    }
    string_from_chars(&out)
}

/// Relies on `String`'s `FromIterator<char>` implementation (through
/// `Iterator::collect`): the collected string consists of exactly the
/// iterated characters, in order.
#[verifier::external_body]
pub fn string_from_chars(v: &Vec<char>) -> (s: String)
    ensures
        s@ == v@,
{
    v.iter().collect()
}

} // verus!
