//! Configuration: `key = value` text, unsigned number fields and defaults.

use vstd::prelude::*;
use vstd::string::{StrSliceExecFns, StringExecFns};
use crate::strmap::StrMap;
use crate::text::{append_dec, dec, push_char, string_of};

verus! {

/// A white-space character (Unicode White_Space, as `char::is_whitespace`).
pub open spec fn is_space(c: char) -> bool {
    let n = c as u32;
    ||| 0x9 <= n && n <= 0xd
    ||| n == 0x20
    ||| n == 0x85
    ||| n == 0xa0
    ||| n == 0x1680
    ||| 0x2000 <= n && n <= 0x200a
    ||| n == 0x2028
    ||| n == 0x2029
    ||| n == 0x202f
    ||| n == 0x205f
    ||| n == 0x3000
}

/// Whether `c` is white space.
pub fn char_is_space(c: char) -> (b: bool)
    ensures
        b == is_space(c),
{
    let n = c as u32;
    (0x9 <= n && n <= 0xd) || n == 0x20 || n == 0x85 || n == 0xa0 || n == 0x1680 || (0x2000 <= n
        && n <= 0x200a) || n == 0x2028 || n == 0x2029 || n == 0x202f || n == 0x205f || n == 0x3000
}

/// `s` without its leading white space.
pub open spec fn trim_start(s: Seq<char>) -> Seq<char>
    decreases s.len(),
{
    if s.len() > 0 && is_space(s[0]) {
        trim_start(s.drop_first())
    } else {
        s
    }
}

/// `s` without its trailing white space.
pub open spec fn trim_end(s: Seq<char>) -> Seq<char>
    decreases s.len(),
{
    if s.len() > 0 && is_space(s.last()) {
        trim_end(s.drop_last())
    } else {
        s
    }
}

/// `s` without leading and trailing white space.
pub open spec fn trim(s: Seq<char>) -> Seq<char> {
    trim_end(trim_start(s))
}

/// `i` is the position of the first `c` in `s`.
pub open spec fn is_first(s: Seq<char>, c: char, i: int) -> bool {
    0 <= i < s.len() && s[i] == c && forall|j: int| 0 <= j < i ==> s[j] != c
}

/// The key and value of one line: for a line that, trimmed, is neither
/// empty nor a `#` comment and holds a `=`, the trimmed text before the first
/// `=` and the trimmed text after it.
pub open spec fn line_entry(line: Seq<char>) -> Option<(Seq<char>, Seq<char>)> {
    let t = trim(line);
    if t.len() == 0 || t[0] == '#' || !(exists|i: int| 0 <= i < t.len() && t[i] == '=') {
        None
    } else {
        let i = choose|i: int| is_first(t, '=', i);
        Some((trim(t.subrange(0, i)), trim(t.subrange(i + 1, t.len() as int))))
    }
}

/// The map after one more line.
pub open spec fn apply_line(m: Map<Seq<char>, Seq<char>>, line: Seq<char>) -> Map<Seq<char>, Seq<char>> {
    match line_entry(line) {
        Some(kv) => m.insert(kv.0, kv.1),
        None => m,
    }
}

/// Reading `s` from the start: the map of the lines completed so far (by a
/// `'\n'`) and the text of the line being read.
pub open spec fn scan(s: Seq<char>) -> (Map<Seq<char>, Seq<char>>, Seq<char>)
    decreases s.len(),
{
    if s.len() == 0 {
        (Map::empty(), Seq::empty())
    } else {
        let prev = scan(s.drop_last());
        if s.last() == '\n' {
            (apply_line(prev.0, prev.1), Seq::empty())
        } else {
            (prev.0, prev.1.push(s.last()))
        }
    }
}

/// The settings of a configuration text: each line in turn sets its key to
/// its value (a later line overrides an earlier one).
pub open spec fn config_entries(s: Seq<char>) -> Map<Seq<char>, Seq<char>> {
    apply_line(scan(s).0, scan(s).1)
}

/// The keys and value texts of a string map.
pub open spec fn text_map(m: &StrMap<String>) -> Map<Seq<char>, Seq<char>> {
    Map::new(|k: Seq<char>| m.has(k), |k: Seq<char>| m.value_of(k)@)
}

/// The characters of `v` from `lo` to `hi`, as a string.
pub(crate) fn chars_to_string(v: &Vec<char>, lo: usize, hi: usize) -> (r: String)
    requires
        lo <= hi <= v@.len(),
    ensures
        r@ == v@.subrange(lo as int, hi as int),
{
    let mut r = String::new();
    let mut i = lo;
    while i < hi
        invariant
            lo <= i <= hi,
            hi <= v@.len(),
            r@ == v@.subrange(lo as int, i as int),
        decreases hi - i,
    {
        push_char(&mut r, v[i]);
        assert(v@.subrange(lo as int, i + 1) =~= v@.subrange(lo as int, i as int).push(v@[i as int]));
        i = i + 1;
    }
    r
}

/// The bounds of `v[lo..hi]` trimmed.
pub(crate) fn trim_range(v: &Vec<char>, lo: usize, hi: usize) -> (r: (usize, usize))
    requires
        lo <= hi <= v@.len(),
    ensures
        lo <= r.0 <= r.1 <= hi,
        v@.subrange(r.0 as int, r.1 as int) == trim(v@.subrange(lo as int, hi as int)),
{
    let mut a = lo;
    while a < hi && char_is_space(v[a])
        invariant
            lo <= a <= hi,
            hi <= v@.len(),
            trim_start(v@.subrange(lo as int, hi as int)) == trim_start(v@.subrange(a as int, hi as int)),
        decreases hi - a,
    {
        assert(v@.subrange(a as int, hi as int).drop_first() =~= v@.subrange(a + 1, hi as int));
        a = a + 1;
    }
    assert(trim_start(v@.subrange(a as int, hi as int)) == v@.subrange(a as int, hi as int));
    let mut b = hi;
    while b > a && char_is_space(v[b - 1])
        invariant
            a <= b <= hi,
            hi <= v@.len(),
            trim_end(v@.subrange(a as int, hi as int)) == trim_end(v@.subrange(a as int, b as int)),
        decreases b - a,
    {
        assert(v@.subrange(a as int, b as int).drop_last() =~= v@.subrange(a as int, b - 1));
        b = b - 1;
    }
    assert(trim_end(v@.subrange(a as int, b as int)) == v@.subrange(a as int, b as int));
    (a, b)
}

/// Records the key and value of `line`, if it has them, in `m`.
fn apply_line_to(m: &mut StrMap<String>, line: &Vec<char>)
    requires
        old(m).wf(),
    ensures
        final(m).wf(),
        text_map(final(m)) == apply_line(text_map(old(m)), line@),
{
    let (a, b) = trim_range(line, 0, line.len());
    assert(line@.subrange(0, line@.len() as int) =~= line@);
    let ghost t = line@.subrange(a as int, b as int);
    if a == b || line[a] == '#' {
        assert(line_entry(line@) is None);
        return;
    }
    let mut e = a;
    while e < b && line[e] != '='
        invariant
            a <= e <= b,
            b <= line@.len(),
            t == line@.subrange(a as int, b as int),
            forall|j: int| 0 <= j < e - a ==> t[j] != '=',
        decreases b - e,
    {
        e = e + 1;
    }
    if e == b {
        assert(line_entry(line@) is None);
        return;
    }
    let ghost i = e - a;
    assert(is_first(t, '=', i));
    assert(t[i] == '=');
    let ghost chosen = choose|i: int| is_first(t, '=', i);
    assert(is_first(t, '=', chosen));
    assert(chosen == i) by {
        if chosen < i {
            assert(t[chosen] != '=');
        } else if chosen > i {
            assert(t[i] != '=');
        }
    }
    let (ka, kb) = trim_range(line, a, e);
    let (va, vb) = trim_range(line, e + 1, b);
    assert(line@.subrange(a as int, e as int) =~= t.subrange(0, i));
    assert(line@.subrange(e + 1, b as int) =~= t.subrange(i + 1, t.len() as int));
    let key = chars_to_string(line, ka, kb);
    let value = chars_to_string(line, va, vb);
    let ghost before = text_map(m);
    m.insert(key, value);
    assert(text_map(m) =~= before.insert(key@, value@));
}

/// The settings of a configuration text (see `config_entries`): `key = value`
/// lines; blank lines, `#` comments and lines without `=` are skipped.
pub fn parse_config(content: &str) -> (r: Result<StrMap<String>, String>)
    ensures
        r matches Ok(m) && m.wf() && text_map(&m) == config_entries(content@),
{
    let mut m: StrMap<String> = StrMap::new();
    let mut line: Vec<char> = Vec::new();
    let n = content.unicode_len();
    let mut i: usize = 0;
    assert(text_map(&m) =~= Map::empty());
    assert(content@.take(0) =~= Seq::<char>::empty());
    while i < n
        invariant
            n == content@.len(),
            i <= n,
            m.wf(),
            (text_map(&m), line@) == scan(content@.take(i as int)),
        decreases n - i,
    {
        let c = content.get_char(i);
        assert(content@.take(i + 1).drop_last() =~= content@.take(i as int));
        assert(content@.take(i + 1).last() == c);
        if c == '\n' {
            apply_line_to(&mut m, &line);
            line = Vec::new();
            assert(line@ =~= Seq::<char>::empty());
        } else {
            line.push(c);
        }
        i = i + 1;
    }
    assert(content@.take(n as int) =~= content@);
    apply_line_to(&mut m, &line);
    Ok(m)
}

/// Every character is a decimal digit.
pub open spec fn all_digits(s: Seq<char>) -> bool {
    forall|i: int| 0 <= i < s.len() ==> '0' <= #[trigger] s[i] && s[i] <= '9'
}

/// The number written by decimal digits.
pub open spec fn digits_value(s: Seq<char>) -> nat
    decreases s.len(),
{
    if s.len() == 0 {
        0
    } else {
        digits_value(s.drop_last()) * 10 + (s.last() as nat - '0' as nat) as nat
    }
}

/// The value of an unsigned decimal number text (an optional `+`, then one or
/// more digits) when it is at most `max`: how `str::parse` reads an unsigned
/// integer type whose largest value is `max`.
pub open spec fn parse_unsigned(s: Seq<char>, max: nat) -> Option<nat> {
    let d = if s.len() > 0 && s[0] == '+' {
        s.drop_first()
    } else {
        s
    };
    if d.len() > 0 && all_digits(d) && digits_value(d) <= max {
        Some(digits_value(d))
    } else {
        None
    }
}

/// A longer run of digits is worth at least as much.
proof fn lemma_digits_value_prefix(s: Seq<char>, k: int)
    requires
        0 <= k <= s.len(),
        all_digits(s),
    ensures
        digits_value(s.take(k)) <= digits_value(s),
    decreases s.len() - k,
{
    if k < s.len() {
        assert(s.take(k + 1).drop_last() =~= s.take(k));
        assert(all_digits(s.take(k + 1)));
        lemma_digits_value_prefix(s, k + 1);
    } else {
        assert(s.take(k) =~= s);
    }
}

/// Reads an unsigned decimal number no greater than `max` (see `parse_unsigned`).
pub fn parse_unsigned_max(s: &str, max: u64) -> (r: Option<u64>)
    requires
        max >= 9,
    ensures
        r is Some <==> parse_unsigned(s@, max as nat) is Some,
        r matches Some(v) ==> v == parse_unsigned(s@, max as nat)->0,
{
    let n = s.unicode_len();
    let start: usize = if n > 0 && s.get_char(0) == '+' {
        1
    } else {
        0
    };
    let ghost d = if s@.len() > 0 && s@[0] == '+' {
        s@.drop_first()
    } else {
        s@
    };
    assert(d =~= s@.subrange(start as int, n as int));
    if start == n {
        return None;
    }
    let mut acc: u64 = 0;
    let mut i = start;
    assert(d.take(0) =~= Seq::<char>::empty());
    while i < n
        invariant
            start <= i <= n,
            n == s@.len(),
            start < n,
            d == s@.subrange(start as int, n as int),
            d == (if s@.len() > 0 && s@[0] == '+' {
                s@.drop_first()
            } else {
                s@
            }),
            max >= 9,
            all_digits(d.take(i - start)),
            acc == digits_value(d.take(i - start)),
            acc <= max,
        decreases n - i,
    {
        let c = s.get_char(i);
        assert(d[i - start] == c);
        if !('0' <= c && c <= '9') {
            assert(!all_digits(d));
            return None;
        }
        let digit = (c as u32 - '0' as u32) as u64;
        assert(d.take(i - start + 1).drop_last() =~= d.take(i - start));
        assert(all_digits(d.take(i - start + 1)));
        if acc > (max - digit) / 10 {
            proof {
                assert(acc * 10 + digit > max) by (nonlinear_arith)
                    requires
                        acc > (max - digit) / 10,
                        digit <= 9,
                        max >= 9,
                ;
                assert(d.take(i - start + 1).last() == c);
                assert(digits_value(d.take(i - start + 1)) == acc * 10 + digit);
                if all_digits(d) {
                    lemma_digits_value_prefix(d, i - start + 1);
                }
            }
            return None;
        }
        assert(acc * 10 + digit <= max) by (nonlinear_arith)
            requires
                acc <= (max - digit) / 10,
                digit <= 9,
                max >= 9,
        ;
        acc = acc * 10 + digit;
        i = i + 1;
    }
    assert(d.take(n - start) =~= d);
    Some(acc)
}

/// The text under `key` in `m`, or `default` when absent.
fn setting_or(m: &StrMap<String>, key: &str, default: &str) -> (r: String)
    requires
        m.wf(),
    ensures
        r@ == (if text_map(m).dom().contains(key@) {
            text_map(m)[key@]
        } else {
            default@
        }),
{
    match m.get(key) {
        Some(v) => v.clone(),
        None => string_of(default),
    }
}

/// The number under `key` in `m` read as an unsigned number no greater than
/// `max`, or `default` when absent or not such a number.
fn number_or(m: &StrMap<String>, key: &str, max: u64, default: u64) -> (r: u64)
    requires
        m.wf(),
        max >= 9,
    ensures
        r == number_setting(text_map(m), key@, max as nat, default as nat),
{
    match m.get(key) {
        Some(v) => match parse_unsigned_max(v.as_str(), max) {
            Some(x) => x,
            None => default,
        },
        None => default,
    }
}

/// The text setting under `key`, or `default`.
pub open spec fn text_setting(m: Map<Seq<char>, Seq<char>>, key: Seq<char>, default: Seq<char>) -> Seq<char> {
    if m.dom().contains(key) {
        m[key]
    } else {
        default
    }
}

/// The numeric setting under `key` (at most `max`), or `default`.
pub open spec fn number_setting(m: Map<Seq<char>, Seq<char>>, key: Seq<char>, max: nat, default: nat) -> nat {
    if m.dom().contains(key) && parse_unsigned(m[key], max) is Some {
        parse_unsigned(m[key], max)->0
    } else {
        default
    }
}

/// Where the server listens.
#[derive(Debug, Clone)]
pub struct ServerConfig {
    pub host: String,
    pub port: u16,
}

/// How a client reaches the server.
#[derive(Debug, Clone)]
pub struct ClientConfig {
    pub host: String,
    pub port: u16,
    /// Seconds.
    pub timeout: u64,
    pub retry_attempts: u32,
    pub client_name: String,
}

impl Default for ServerConfig {
    fn default() -> (c: Self)
        ensures
            c.host@ == "127.0.0.1"@,
            c.port == 3000,
    {
        ServerConfig { host: string_of("127.0.0.1"), port: 3000 }
    }
}

impl Default for ClientConfig {
    fn default() -> (c: Self)
        ensures
            c.host@ == "127.0.0.1"@,
            c.port == 3000,
            c.timeout == 30,
            c.retry_attempts == 3,
            c.client_name@ == "DefaultClient"@,
    {
        ClientConfig {
            host: string_of("127.0.0.1"),
            port: 3000,
            timeout: 30,
            retry_attempts: 3,
            client_name: string_of("DefaultClient"),
        }
    }
}

impl ServerConfig {
    /// The configuration a configuration text gives: `host` (default
    /// "127.0.0.1") and `port` (default 3000 when absent or not a `u16`).
    pub fn from_text(content: &str) -> (r: Result<Self, String>)
        ensures
            r matches Ok(c) && c.host@ == text_setting(config_entries(content@), "host"@, "127.0.0.1"@)
                && c.port == number_setting(config_entries(content@), "port"@, 65535, 3000),
    {
        let m = match parse_config(content) {
            Ok(m) => m,
            Err(e) => return Err(e),
        };
        let host = setting_or(&m, "host", "127.0.0.1");
        let port = number_or(&m, "port", 65535, 3000);
        Ok(ServerConfig { host, port: port as u16 })
    }
}

impl ClientConfig {
    /// The configuration a configuration text gives: `host` (default
    /// "127.0.0.1"), `port` (3000), `timeout` (30), `retry_attempts` (3) and
    /// `client_name` ("DefaultClient"); a number that is absent or out of its
    /// type's range takes its default.
    pub fn from_text(content: &str) -> (r: Result<Self, String>)
        ensures
            r matches Ok(c) && c.host@ == text_setting(config_entries(content@), "host"@, "127.0.0.1"@)
                && c.port == number_setting(config_entries(content@), "port"@, 65535, 3000) && c.timeout
                == number_setting(config_entries(content@), "timeout"@, 0xffff_ffff_ffff_ffff, 30)
                && c.retry_attempts == number_setting(config_entries(content@), "retry_attempts"@, 0xffff_ffff, 3)
                && c.client_name@ == text_setting(config_entries(content@), "client_name"@, "DefaultClient"@),
    {
        let m = match parse_config(content) {
            Ok(m) => m,
            Err(e) => return Err(e),
        };
        let host = setting_or(&m, "host", "127.0.0.1");
        let port = number_or(&m, "port", 65535, 3000);
        let timeout = number_or(&m, "timeout", 0xffff_ffff_ffff_ffff, 30);
        let retry_attempts = number_or(&m, "retry_attempts", 0xffff_ffff, 3);
        let client_name = setting_or(&m, "client_name", "DefaultClient");
        Ok(
            ClientConfig {
                host,
                port: port as u16,
                timeout,
                retry_attempts: retry_attempts as u32,
                client_name,
            },
        )
    }

    /// The server's base URL: "http://" host ":" port.
    pub fn server_url(&self) -> (s: String)
        ensures
            s@ == "http://"@ + self.host@ + ":"@ + dec(self.port as nat),
    {
        let mut s = string_of("http://");
        s.append(self.host.as_str());
        s.append(":");
        append_dec(&mut s, self.port as u64);
        s
    }
}

} // verus!
