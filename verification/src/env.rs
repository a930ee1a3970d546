use vstd::prelude::*;
use vstd::string::StringSliceAdditionalSpecFns;

verus! {

/// The three-byte UTF-8 encodings of the whitespace characters U+1680, U+2000 to U+200A,
/// U+2028, U+2029, U+202F, U+205F and U+3000.
pub open spec fn is_ws3(a: u8, b: u8, c: u8) -> bool {
    ||| (a == 0xE1 && b == 0x9A && c == 0x80)
    ||| (a == 0xE2 && b == 0x80 && ((0x80 <= c && c <= 0x8A) || c == 0xA8 || c == 0xA9 || c == 0xAF))
    ||| (a == 0xE2 && b == 0x81 && c == 0x9F)
    ||| (a == 0xE3 && b == 0x80 && c == 0x80)
}

/// The one-byte whitespace characters: tab, line feed, vertical tab, form feed, carriage
/// return and space.
pub open spec fn is_ws1(a: u8) -> bool {
    a == 32 || (9 <= a && a <= 13)
}

/// The two-byte whitespace characters U+0085 and U+00A0.
pub open spec fn is_ws2(a: u8, b: u8) -> bool {
    a == 0xC2 && (b == 0x85 || b == 0xA0)
}

/// The length of the whitespace character that `s` starts with (0 when it starts with
/// none).
pub open spec fn ws_lead(s: Seq<u8>) -> int {
    if s.len() >= 1 && is_ws1(s[0]) {
        1
    } else if s.len() >= 2 && is_ws2(s[0], s[1]) {
        2
    } else if s.len() >= 3 && is_ws3(s[0], s[1], s[2]) {
        3
    } else {
        0
    }
}

/// The length of the whitespace character that `s` ends with (0 when it ends with none).
pub open spec fn ws_trail(s: Seq<u8>) -> int {
    let n = s.len() as int;
    if n >= 1 && is_ws1(s[n - 1]) {
        1
    } else if n >= 2 && is_ws2(s[n - 2], s[n - 1]) {
        2
    } else if n >= 3 && is_ws3(s[n - 3], s[n - 2], s[n - 1]) {
        3
    } else {
        0
    }
}

/// `s` without its leading whitespace.
pub open spec fn trim_start(s: Seq<u8>) -> Seq<u8>
    decreases s.len(),
{
    if ws_lead(s) > 0 {
        trim_start(s.skip(ws_lead(s)))
    } else {
        s
    }
}

/// `s` without its trailing whitespace.
pub open spec fn trim_end(s: Seq<u8>) -> Seq<u8>
    decreases s.len(),
{
    if ws_trail(s) > 0 {
        trim_end(s.take(s.len() - ws_trail(s)))
    } else {
        s
    }
}

/// The UTF-8 text `s` without leading and trailing whitespace, as `str::trim` gives it.
pub open spec fn trim(s: Seq<u8>) -> Seq<u8> {
    trim_end(trim_start(s))
}

/// The index of the last line feed in `s` (-1 when there is none).
pub open spec fn last_newline(s: Seq<u8>) -> int
    decreases s.len(),
{
    if s.len() == 0 {
        -1
    } else if s.last() == 10 {
        s.len() - 1
    } else {
        last_newline(s.drop_last())
    }
}

/// The index of the first `=` in `s` (-1 when there is none).
pub open spec fn first_equals(s: Seq<u8>) -> int
    decreases s.len(),
{
    if s.len() == 0 {
        -1
    } else if s[0] == 61 {
        0
    } else if first_equals(s.skip(1)) < 0 {
        -1
    } else {
        first_equals(s.skip(1)) + 1
    }
}

/// A line `KEY = value` that sets `key`: it does not start with `#`, holds an `=`, and
/// what stands before the first `=` is `key` once trimmed.
pub open spec fn sets_key(line: Seq<u8>, key: Seq<u8>) -> bool {
    &&& !(line.len() > 0 && line[0] == 35)
    &&& first_equals(line) >= 0
    &&& trim(line.take(first_equals(line))) == key
}

/// The value a line sets: what follows the first `=`, trimmed.
pub open spec fn line_value(line: Seq<u8>) -> Seq<u8> {
    trim(line.skip(first_equals(line) + 1))
}

/// The value that the text of an environment file gives `key`: that of the last line
/// setting it, none when no line does.
pub open spec fn env_lookup(s: Seq<u8>, key: Seq<u8>) -> Option<Seq<u8>>
    decreases s.len(),
{
    let i = last_newline(s);
    let line = s.skip(i + 1);
    if sets_key(line, key) {
        Some(line_value(line))
    } else if i < 0 {
        None
    } else {
        lookup_before(s, i, key)
    }
}

/// `env_lookup` of the text before the line feed at `i`.
pub open spec fn lookup_before(s: Seq<u8>, i: int, key: Seq<u8>) -> Option<Seq<u8>>
    decreases s.len(), 0int,
{
    if 0 <= i < s.len() {
        env_lookup(s.take(i), key)
    } else {
        None
    }
}

proof fn lemma_last_newline(s: Seq<u8>)
    ensures
        -1 <= last_newline(s) < s.len(),
        last_newline(s) >= 0 ==> s[last_newline(s)] == 10,
        forall|k: int| last_newline(s) < k < s.len() ==> s[k] != 10,
    decreases s.len(),
{
    if s.len() > 0 && s.last() != 10 {
        lemma_last_newline(s.drop_last());
        assert forall|k: int| last_newline(s) < k < s.len() implies s[k] != 10 by {
            if k < s.len() - 1 {
                assert(s[k] == s.drop_last()[k]);
            }
        }
    }
}

proof fn lemma_first_equals(s: Seq<u8>)
    ensures
        -1 <= first_equals(s) < s.len(),
        first_equals(s) >= 0 ==> s[first_equals(s)] == 61,
        forall|k: int| 0 <= k < s.len() && (first_equals(s) < 0 || k < first_equals(s)) ==> s[k] != 61,
    decreases s.len(),
{
    if s.len() > 0 && s[0] != 61 {
        lemma_first_equals(s.skip(1));
        assert forall|k: int| 0 <= k < s.len() && (first_equals(s) < 0 || k < first_equals(s)) implies s[k] != 61 by {
            if k > 0 {
                assert(s[k] == s.skip(1)[k - 1]);
            }
        }
    }
}

/// The length of the whitespace character at `s[a..]`.
pub(crate) fn ws_lead_at(s: &[u8], a: usize) -> (r: usize)
    requires
        a <= s.len(),
    ensures
        r == ws_lead(s@.skip(a as int)),
        a + r <= s.len(),
{
    let n = s.len() - a;
    if n >= 1 && (s[a] == 32 || (9 <= s[a] && s[a] <= 13)) {
        1
    } else if n >= 2 && s[a] == 0xC2 && (s[a + 1] == 0x85 || s[a + 1] == 0xA0) {
        2
    } else if n >= 3 && ((s[a] == 0xE1 && s[a + 1] == 0x9A && s[a + 2] == 0x80) || (s[a] == 0xE2 && s[a
        + 1] == 0x80 && ((0x80 <= s[a + 2] && s[a + 2] <= 0x8A) || s[a + 2] == 0xA8 || s[a + 2] == 0xA9
        || s[a + 2] == 0xAF)) || (s[a] == 0xE2 && s[a + 1] == 0x81 && s[a + 2] == 0x9F) || (s[a]
        == 0xE3 && s[a + 1] == 0x80 && s[a + 2] == 0x80)) {
        3
    } else {
        0
    }
}

/// The length of the whitespace character that `s[..b]` ends with.
fn ws_trail_at(s: &[u8], b: usize) -> (r: usize)
    requires
        b <= s.len(),
    ensures
        r == ws_trail(s@.take(b as int)),
        r <= b,
{
    if b >= 1 && (s[b - 1] == 32 || (9 <= s[b - 1] && s[b - 1] <= 13)) {
        1
    } else if b >= 2 && s[b - 2] == 0xC2 && (s[b - 1] == 0x85 || s[b - 1] == 0xA0) {
        2
    } else if b >= 3 && ((s[b - 3] == 0xE1 && s[b - 2] == 0x9A && s[b - 1] == 0x80) || (s[b - 3]
        == 0xE2 && s[b - 2] == 0x80 && ((0x80 <= s[b - 1] && s[b - 1] <= 0x8A) || s[b - 1] == 0xA8
        || s[b - 1] == 0xA9 || s[b - 1] == 0xAF)) || (s[b - 3] == 0xE2 && s[b - 2] == 0x81 && s[b
        - 1] == 0x9F) || (s[b - 3] == 0xE3 && s[b - 2] == 0x80 && s[b - 1] == 0x80)) {
        3
    } else {
        0
    }
}

/// The bytes of `s[a..b]` without leading and trailing whitespace.
pub fn trim_range(s: &[u8], a: usize, b: usize) -> (r: Vec<u8>)
    requires
        a <= b <= s.len(),
    ensures
        r@ == trim(s@.subrange(a as int, b as int)),
{
    let ghost t0 = s@.subrange(a as int, b as int);
    let mut lo = a;
    proof {
        assert(s@.subrange(lo as int, b as int) =~= t0);
    }
    loop
        invariant
            a <= lo <= b <= s.len(),
            trim_start(t0) == trim_start(s@.subrange(lo as int, b as int)),
        ensures
            trim_start(t0) == s@.subrange(lo as int, b as int),
            lo <= b,
        decreases b - lo,
    {
        let n = ws_lead_at(s, lo);
        let ghost cur = s@.subrange(lo as int, b as int);
        if n == 0 || lo + n > b {
            proof {
                assert(cur.len() >= 1 ==> cur[0] == s@.skip(lo as int)[0]);
                assert(cur.len() >= 2 ==> cur[1] == s@.skip(lo as int)[1]);
                assert(cur.len() >= 3 ==> cur[2] == s@.skip(lo as int)[2]);
                assert(ws_lead(cur) == 0);
            }
            break;
        }
        proof {
            assert(cur.len() >= n);
            assert(cur[0] == s@.skip(lo as int)[0]);
            assert(n >= 2 ==> cur[1] == s@.skip(lo as int)[1]);
            assert(n >= 3 ==> cur[2] == s@.skip(lo as int)[2]);
            assert(ws_lead(cur) == n);
            assert(cur.skip(n as int) =~= s@.subrange(lo + n, b as int));
        }
        lo = lo + n;
    }
    let mut hi = b;
    proof {
        assert(s@.subrange(lo as int, hi as int) == trim_start(t0));
    }
    loop
        invariant
            lo <= hi <= b <= s.len(),
            trim(t0) == trim_end(s@.subrange(lo as int, hi as int)),
        ensures
            trim(t0) == s@.subrange(lo as int, hi as int),
        decreases hi - lo,
    {
        let n = ws_trail_at(s, hi);
        let ghost cur = s@.subrange(lo as int, hi as int);
        let ghost pre = s@.take(hi as int);
        if n == 0 || hi - n < lo {
            proof {
                let m = cur.len() as int;
                let p = pre.len() as int;
                assert(m >= 1 ==> cur[m - 1] == pre[p - 1]);
                assert(m >= 2 ==> cur[m - 2] == pre[p - 2]);
                assert(m >= 3 ==> cur[m - 3] == pre[p - 3]);
                assert(ws_trail(cur) == 0);
            }
            break;
        }
        proof {
            let m = cur.len() as int;
            let p = pre.len() as int;
            assert(m >= n);
            assert(cur[m - 1] == pre[p - 1]);
            assert(n >= 2 ==> cur[m - 2] == pre[p - 2]);
            assert(n >= 3 ==> cur[m - 3] == pre[p - 3]);
            assert(ws_trail(cur) == n);
            assert(cur.take(m - n) =~= s@.subrange(lo as int, hi - n));
        }
        hi = hi - n;
    }
    let mut r: Vec<u8> = Vec::new();
    let mut k = lo;
    while k < hi
        invariant
            lo <= k <= hi <= s.len(),
            r@ == s@.subrange(lo as int, k as int),
        decreases hi - k,
    {
        r.push(s[k]);
        k = k + 1;
        proof {
            assert(r@ =~= s@.subrange(lo as int, k as int));
        }
    }
    r
}

/// The value that the text of an environment file gives `key` (see `env_lookup`):
/// lines starting with `#` are comments, other lines `KEY=value` set the trimmed key to
/// the trimmed value, and a later line overrides an earlier one.
pub fn env_value(text: &[u8], key: &[u8]) -> (r: Option<Vec<u8>>)
    ensures
        match env_lookup(text@, key@) {
            Some(v) => r matches Some(x) && x@ == v,
            None => r is None,
        },
{
    let mut end = text.len();
    proof {
        assert(text@.take(end as int) =~= text@);
    }
    loop
        invariant
            end <= text.len(),
            env_lookup(text@, key@) == env_lookup(text@.take(end as int), key@),
        decreases end,
    {
        let ghost s = text@.take(end as int);
        // the start of the last line of text[..end]
        let mut start = end;
        while start > 0 && text[start - 1] != 10
            invariant
                start <= end <= text.len(),
                s == text@.take(end as int),
                forall|k: int| start <= k < end ==> text@[k] != 10,
            decreases start,
        {
            start = start - 1;
        }
        proof {
            lemma_last_newline(s);
            if start > 0 {
                assert(s[start - 1] == 10);
            }
            assert(last_newline(s) == start - 1);
        }
        let ghost line = s.skip(start as int);
        proof {
            assert(line =~= text@.subrange(start as int, end as int));
        }
        // where the first `=` of the line stands
        let mut eq = start;
        while eq < end && text[eq] != 61
            invariant
                start <= eq <= end <= text.len(),
                forall|k: int| start <= k < eq ==> text@[k] != 61,
            decreases end - eq,
        {
            eq = eq + 1;
        }
        proof {
            lemma_first_equals(line);
            if eq < end {
                assert(line[eq - start] == 61);
                assert(first_equals(line) == eq - start);
            } else {
                assert forall|k: int| 0 <= k < line.len() implies line[k] != 61 by {
                    assert(line[k] == text@[start + k]);
                }
                assert(first_equals(line) < 0);
            }
        }
        let comment = start < end && text[start] == 35;
        if !comment && eq < end {
            let k = trim_range(text, start, eq);
            proof {
                assert(line.take(eq - start) =~= text@.subrange(start as int, eq as int));
            }
            if crate::uci::bytes_eq(k.as_slice(), key) {
                let v = trim_range(text, eq + 1, end);
                proof {
                    assert(line.skip(eq - start + 1) =~= text@.subrange(eq + 1, end as int));
                    assert(sets_key(line, key@));
                }
                return Some(v);
            }
        }
        proof {
            assert(!sets_key(line, key@));
        }
        if start == 0 {
            return None;
        }
        proof {
            assert(s.take(start - 1) =~= text@.take(start - 1));
        }
        end = start - 1;
    }
}

/// The name of the entry that holds the Lichess token.
pub open spec fn lichess_key() -> Seq<u8> {
    seq![76u8, 73, 67, 72, 69, 83, 83, 95, 84, 79, 75, 69, 78]
}

/// The Lichess token that the text of an environment file sets (`LICHESS_TOKEN=...`),
/// as `env_value` reads it.
pub fn get_lichess_token(env: &str) -> (r: Option<Vec<u8>>)
    ensures
        match env_lookup(env.spec_bytes(), lichess_key()) {
            Some(v) => r matches Some(x) && x@ == v,
            None => r is None,
        },
{
    let key: [u8; 13] = [76, 73, 67, 72, 69, 83, 83, 95, 84, 79, 75, 69, 78];
    proof {
        assert(key@ =~= lichess_key());
    }
    env_value(env.as_bytes(), &key)
}

} // verus!
