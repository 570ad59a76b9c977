//! What the settings say: from the environment and the command line.

use crate::json::opt_text;
use crate::text::{
    before_char, characters, dropping_all, dropping_prefix, has_prefix,
    needles_are_dropped_and_the_rest_is_kept, part_before, prefixes_are_what_comes_first, same_text,
    stands_at, what_stands_before_a_character, without_all, without_prefix,
};
use vstd::prelude::*;

verus! {

/// How many seconds a provider has to answer, where no setting says otherwise.
pub const DEFAULT_REQUEST_TIMEOUT: u64 = 60;

/// The base address that the proxy listens at, where no setting says otherwise.
pub const DEFAULT_BASE_URL: &'static str = "http://0.0.0.0:3001/v1";

/// Whether a character is a decimal digit.
pub open spec fn is_digit(c: char) -> bool {
    '0' <= c <= '9'
}

/// The number that decimal digits write.
pub open spec fn digits_value(digits: Seq<char>) -> int
    decreases digits.len(),
{
    if digits.len() == 0 {
        0
    } else {
        digits_value(digits.drop_last()) * 10 + (digits.last() as int - '0' as int)
    }
}

/// The number that a text writes: decimal digits, with or without a plus sign
/// before them, of a value that fits 64 bits.
pub open spec fn number_of(s: Seq<char>) -> Option<u64> {
    let digits = without_prefix(s, "+"@);
    if digits.len() > 0 && (forall|i: int|
        0 <= i < digits.len() ==> is_digit(#[trigger] digits[i])) && digits_value(digits)
        <= u64::MAX {
        Some(digits_value(digits) as u64)
    } else {
        None
    }
}

/// The number of seconds that a provider has to answer.
pub open spec fn timeout_of(setting: Option<Seq<char>>) -> u64 {
    match setting {
        Some(s) => match number_of(s) {
            Some(n) => n,
            None => DEFAULT_REQUEST_TIMEOUT,
        },
        None => DEFAULT_REQUEST_TIMEOUT,
    }
}

/// The file of the providers.
pub open spec fn csv_file(setting: Option<Seq<char>>, home: Option<Seq<char>>) -> Seq<char> {
    match (setting, home) {
        (Some(path), _) => path,
        (None, Some(home)) => home + "/code/freellmkeys.csv"@,
        (None, None) => "llmkeys.csv"@,
    }
}

/// The host and the port of a base address.
pub open spec fn host_and_port(base_url: Seq<char>) -> Seq<char> {
    before_char(without_all(without_all(base_url, "http://"@), "https://"@), '/')
}

proof fn lemma_digits_value_grows(digits: Seq<char>, n: int)
    requires
        0 <= n <= digits.len(),
        forall|i: int| 0 <= i < digits.len() ==> is_digit(#[trigger] digits[i]),
    ensures
        0 <= digits_value(digits.take(n)) <= digits_value(digits),
    decreases digits.len(),
{
    if n < digits.len() {
        lemma_digits_value_grows(digits.drop_last(), n);
        assert(digits.drop_last().take(n) =~= digits.take(n));
    } else {
        assert(digits.take(n) =~= digits);
        if digits.len() > 0 {
            lemma_digits_value_grows(digits.drop_last(), n - 1);
        }
    }
}

/// The number that a text writes, where it writes one.
pub fn parse_number(s: &str) -> (r: Option<u64>)
    ensures
        r == number_of(s@),
{
    let rest: String = dropping_prefix(s, "+");
    let digits: Vec<char> = characters(rest.as_str());
    if digits.len() == 0 {
        return None;
    }
    let mut checked: usize = 0;
    while checked < digits.len()
        invariant
            checked <= digits@.len(),
            digits@ == without_prefix(s@, "+"@),
            forall|i: int| 0 <= i < checked ==> is_digit(#[trigger] digits@[i]),
        decreases digits@.len() - checked,
    {
        if digits[checked] < '0' || digits[checked] > '9' {
            assert(!is_digit(digits@[checked as int]));
            return None;
        }
        checked += 1;
    }
    let mut value: u64 = 0;
    let mut i: usize = 0;
    while i < digits.len()
        invariant
            i <= digits@.len(),
            digits@.len() > 0,
            digits@ == without_prefix(s@, "+"@),
            forall|k: int| 0 <= k < digits@.len() ==> is_digit(#[trigger] digits@[k]),
            value == digits_value(digits@.take(i as int)),
        decreases digits@.len() - i,
    {
        let digit: u64 = (digits[i] as u32 - '0' as u32) as u64;
        proof {
            let next = digits@.take(i + 1);
            assert(next.drop_last() =~= digits@.take(i as int));
            assert(digits_value(next) == value * 10 + digit);
            lemma_digits_value_grows(digits@, i + 1);
        }
        if value > (u64::MAX - digit) / 10 {
            return None;
        }
        value = value * 10 + digit;
        i += 1;
    }
    assert(digits@.take(i as int) =~= digits@);
    Some(value)
}

/// How many seconds a provider has to answer. A setting that writes no number
/// counts as none.
pub fn request_timeout(setting: Option<&str>) -> (r: u64)
    ensures
        r == timeout_of(opt_text(setting)),
{
    match setting {
        Some(s) => match parse_number(s) {
            Some(n) => n,
            None => DEFAULT_REQUEST_TIMEOUT,
        },
        None => DEFAULT_REQUEST_TIMEOUT,
    }
}

/// The file of the providers: the one that is set, else one in the home directory,
/// else one in the working directory.
pub fn csv_path(setting: Option<&str>, home: Option<&str>) -> (r: String)
    ensures
        r@ == csv_file(opt_text(setting), opt_text(home)),
{
    match setting {
        Some(path) => path.to_owned(),
        None => match home {
            Some(home) => home.to_owned().concat("/code/freellmkeys.csv"),
            None => "llmkeys.csv".to_owned(),
        },
    }
}

/// The host and the port to listen at.
pub fn listen_address(setting: Option<&str>) -> (r: String)
    ensures
        r@ == host_and_port(
            match setting {
                Some(base_url) => base_url@,
                None => DEFAULT_BASE_URL@,
            },
        ),
{
    let base_url: &str = match setting {
        Some(base_url) => base_url,
        None => DEFAULT_BASE_URL,
    };
    let bare: String = dropping_all(base_url, "http://");
    let bare: String = dropping_all(bare.as_str(), "https://");
    part_before(bare.as_str(), '/')
}

/// Whether a flag is among the arguments.
pub fn has_flag(args: &Vec<String>, flag: &str) -> (r: bool)
    ensures
        r == exists|i: int| 0 <= i < args@.len() && (#[trigger] args@[i])@ == flag@,
{
    let mut i: usize = 0;
    while i < args.len()
        invariant
            i <= args@.len(),
            forall|k: int| 0 <= k < i ==> (#[trigger] args@[k])@ != flag@,
        decreases args@.len() - i,
    {
        if same_text(args[i].as_str(), flag) {
            return true;
        }
        i += 1;
    }
    false
}

/// The name servers that are asked in place of those of the system.
pub fn name_servers() -> (r: Vec<&'static str>)
    ensures
        r@.len() == 3,
        r@[0]@ == "8.8.8.8:53"@,
        r@[1]@ == "8.8.4.4:53"@,
        r@[2]@ == "1.1.1.1:53"@,
{
    vec!["8.8.8.8:53", "8.8.4.4:53", "1.1.1.1:53"]
}

/// A text that does not begin with a plus sign has no plus sign before its digits.
proof fn lemma_no_plus(s: Seq<char>)
    requires
        s.len() > 0 ==> s[0] != '+',
    ensures
        without_prefix(s, "+"@) == s,
        without_prefix("+"@ + s, "+"@) == s,
{
    reveal_strlit("+");
    prefixes_are_what_comes_first(s, "+"@, s);
    if has_prefix(s, "+"@) {
        assert(s.take(1)[0] == "+"@[0]);
    }
}

/// Numbers are read digit by digit, from the left: one more digit makes ten times the
/// number and the digit, as long as that fits. What has anything but digits in it, or
/// nothing, is no number; a plus sign before the digits, and only one, is let pass.
pub proof fn numbers_are_read_digit_by_digit(s: Seq<char>, c: char)
    requires
        s.len() > 0,
        s[0] != '+',
    ensures
        number_of(Seq::empty()) is None,
        number_of(seq![c]) == if '0' <= c <= '9' {
            Some((c as int - '0' as int) as u64)
        } else {
            None
        },
        number_of(s.push(c)) is Some <==> (number_of(s) matches Some(n) && '0' <= c <= '9' && n * 10
            + (c as int - '0' as int) <= u64::MAX),
        number_of(s.push(c)) matches Some(m) ==> m == number_of(s)->0 * 10 + (c as int
            - '0' as int),
        number_of("+"@ + s) == number_of(s),
        number_of("+"@ + ("+"@ + s)) is None,
{
    reveal_strlit("+");
    let one = seq![c];
    assert(one.drop_last() =~= Seq::empty());
    assert(digits_value(one.drop_last()) == 0);
    lemma_no_plus(Seq::empty());
    if c != '+' {
        lemma_no_plus(one);
        assert(one[0] == c);
    } else {
        assert(one =~= "+"@ + Seq::<char>::empty());
        prefixes_are_what_comes_first(one, "+"@, Seq::empty());
    }
    lemma_no_plus(s);
    let more = s.push(c);
    assert(more[0] == s[0]);
    lemma_no_plus(more);
    assert(more.drop_last() =~= s);
    assert(more.last() == c);
    assert(digits_value(more) == digits_value(s) * 10 + (c as int - '0' as int));
    if forall|i: int| 0 <= i < s.len() ==> is_digit(#[trigger] s[i]) {
        lemma_digits_value_grows(s, s.len() as int);
        assert(s.take(s.len() as int) =~= s);
        if is_digit(c) {
            assert forall|i: int| 0 <= i < more.len() implies is_digit(#[trigger] more[i]) by {
                if i < s.len() {
                    assert(is_digit(s[i]));
                }
            }
        } else {
            assert(!is_digit(more[s.len() as int]));
        }
    } else {
        let i = choose|i: int| 0 <= i < s.len() && !is_digit(#[trigger] s[i]);
        assert(!is_digit(more[i]));
    }
    let plus = "+"@ + s;
    prefixes_are_what_comes_first("+"@ + plus, "+"@, plus);
    assert(plus[0] == '+');
    assert(!is_digit(plus[0]));
}

/// A provider has as many seconds to answer as the setting says, and sixty where it
/// says no number.
pub proof fn the_timeout_is_the_setting_or_a_minute(setting: Option<Seq<char>>)
    ensures
        timeout_of(setting) == match setting {
            Some(s) => match number_of(s) {
                Some(n) => n,
                None => 60,
            },
            None => 60,
        },
{
}

/// The file of the providers is the one that is set; else it is in the home directory;
/// else in the working directory.
pub proof fn the_file_of_providers_has_its_place(path: Seq<char>, home: Option<Seq<char>>)
    ensures
        csv_file(Some(path), home) == path,
        home matches Some(dir) ==> csv_file(None, home) == dir + "/code/freellmkeys.csv"@,
        home is None ==> csv_file(None, home) == "llmkeys.csv"@,
{
}

/// Of a base address the host and the port are left: without the scheme, be it either
/// or none, and without the path, if there is one.
pub proof fn the_host_and_the_port_are_left(host: Seq<char>, path: Seq<char>)
    requires
        !host.contains('/'),
        host.len() > 0 ==> host.last() != ':',
    ensures
        host_and_port(host) == host,
        host_and_port("http://"@ + host) == host,
        host_and_port("https://"@ + host) == host,
        host_and_port(host + seq!['/'] + path) == host,
        host_and_port("http://"@ + (host + seq!['/'] + path)) == host,
        host_and_port("https://"@ + (host + seq!['/'] + path)) == host,
{
    let none = Seq::<char>::empty();
    assert(host + none =~= host);
    lemma_host_is_left(host, none);
    let tail = seq!['/'] + path;
    assert(host + seq!['/'] + path =~= host + tail);
    lemma_host_is_left(host, tail);
}

proof fn lemma_host_is_left(host: Seq<char>, tail: Seq<char>)
    requires
        !host.contains('/'),
        host.len() > 0 ==> host.last() != ':',
        tail.len() > 0 ==> tail[0] == '/',
    ensures
        host_and_port(host + tail) == host,
        host_and_port("http://"@ + (host + tail)) == host,
        host_and_port("https://"@ + (host + tail)) == host,
{
    reveal_strlit("http://");
    reveal_strlit("https://");
    let http = "http://"@;
    let https = "https://"@;
    let none = Seq::<char>::empty();
    let whole = host + tail;
    lemma_no_scheme(host, tail, http);
    needles_are_dropped_and_the_rest_is_kept(host, http, tail);
    needles_are_dropped_and_the_rest_is_kept(none, http, whole);
    lemma_first_slash_stays(tail, http);
    let bare = without_all(tail, http);
    lemma_no_scheme(host, bare, https);
    needles_are_dropped_and_the_rest_is_kept(host, https, bare);
    needles_are_dropped_and_the_rest_is_kept(none, https, host + bare);
    lemma_first_slash_stays(bare, https);
    let rest = without_all(bare, https);
    if rest.len() > 0 {
        assert(host + rest =~= host + seq!['/'] + rest.drop_first());
        what_stands_before_a_character(host, '/', rest.drop_first());
    } else {
        assert(host + rest =~= host);
        what_stands_before_a_character(host, '/', none);
    }
    let secure = https + whole;
    assert forall|at: int| 0 <= at < https.len() implies !stands_at(https + whole, http, at) by {
        if stands_at(secure, http, at) {
            let found = secure.subrange(at, at + http.len());
            assert(found[0] == secure[at] && found[4] == secure[at + 4]);
        }
    }
    needles_are_dropped_and_the_rest_is_kept(https, http, whole);
}

/// No scheme begins in a host.
proof fn lemma_no_scheme(host: Seq<char>, tail: Seq<char>, scheme: Seq<char>)
    requires
        !host.contains('/'),
        host.len() > 0 ==> host.last() != ':',
        tail.len() > 0 ==> tail[0] == '/',
        scheme == "http://"@ || scheme == "https://"@,
    ensures
        forall|at: int| 0 <= at < host.len() ==> !stands_at(host + tail, scheme, at),
{
    reveal_strlit("http://");
    reveal_strlit("https://");
    let whole = host + tail;
    let n = scheme.len() as int;
    assert forall|at: int| 0 <= at < host.len() implies !stands_at(host + tail, scheme, at) by {
        if stands_at(whole, scheme, at) {
            let found = whole.subrange(at, at + n);
            let slash = at + n - 2;
            assert(found[n - 2] == whole[slash] && found[n - 3] == whole[slash - 1]);
            if slash < host.len() {
                assert(host[slash] == '/');
            } else if slash == host.len() {
                assert(whole[slash - 1] == host.last());
            } else {
                let end = host.len() as int;
                assert(found[end - at] == whole[end]);
                assert(whole[end] == tail[0]);
            }
        }
    }
}

/// A slash that a text begins with is left when a scheme is dropped.
proof fn lemma_first_slash_stays(tail: Seq<char>, scheme: Seq<char>)
    requires
        tail.len() > 0 ==> tail[0] == '/',
        scheme.len() > 0,
        scheme[0] != '/',
    ensures
        tail.len() == 0 ==> without_all(tail, scheme).len() == 0,
        tail.len() > 0 ==> without_all(tail, scheme).len() > 0 && without_all(tail, scheme)[0]
            == '/',
{
    if tail.len() > 0 && has_prefix(tail, scheme) {
        assert(tail.take(scheme.len() as int)[0] == scheme[0]);
    }
}

} // verus!
