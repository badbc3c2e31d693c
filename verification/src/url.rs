//! The address of the server that a client connects to.

use crate::config::setting_views;
use crate::text::{
    begins_with, cat, cat3, chars_of, find, is_white, owned, position, same_text, starts_with, string_of, strip_back,
    trim, trimmed,
};
use vstd::prelude::*;

verus! {

/// What stands before the first occurrence of a pattern, or all of a text
/// without one.
pub open spec fn text_before(s: Seq<char>, pattern: Seq<char>) -> Seq<char> {
    match position(s, pattern) {
        Some(i) => s.take(i),
        None => s,
    }
}

/// What stands from the first occurrence of a pattern on, or nothing.
pub open spec fn text_from(s: Seq<char>, pattern: Seq<char>) -> Seq<char> {
    match position(s, pattern) {
        Some(i) => s.skip(i),
        None => Seq::empty(),
    }
}

/// A text in two: what stands before the first occurrence of a pattern, and
/// the rest.
fn parts(s: &str, pattern: &str) -> (r: (String, String))
    ensures
        r.0@ == text_before(s@, pattern@),
        r.1@ == text_from(s@, pattern@),
{
    let chars = chars_of(s);
    match find(&chars, &chars_of(pattern)) {
        Some(i) => {
            assert(s@.subrange(0, i as int) == s@.take(i as int));
            assert(s@.subrange(i as int, s@.len() as int) == s@.skip(i as int));
            (string_of(&chars, 0, i), string_of(&chars, i, chars.len()))
        },
        None => {
            assert(s@.subrange(0, s@.len() as int) == s@);
            assert(s@.subrange(0, 0) == Seq::<char>::empty());
            (string_of(&chars, 0, chars.len()), string_of(&chars, 0, 0))
        },
    }
}

/// A text without its first characters.
fn skip_chars(s: &str, n: usize) -> (r: String)
    requires
        n <= s@.len(),
    ensures
        r@ == s@.skip(n as int),
{
    let chars = chars_of(s);
    assert(s@.subrange(n as int, s@.len() as int) == s@.skip(n as int));
    string_of(&chars, n, chars.len())
}

pub open spec fn is_slash(c: char) -> bool {
    c == '/'
}

/// A text without slashes at its end.
pub open spec fn unslashed(s: Seq<char>) -> Seq<char> {
    strip_back(s, |c: char| is_slash(c))
}

fn trim_slashes(s: &str) -> (r: String)
    ensures
        r@ == unslashed(s@),
{
    let chars = chars_of(s);
    let ghost p = |c: char| is_slash(c);
    let mut to: usize = chars.len();
    assert(chars@.take(to as int) == chars@);
    while to > 0 && chars[to - 1] == '/'
        invariant
            to <= chars@.len(),
            p == (|c: char| is_slash(c)),
            strip_back(chars@, p) == strip_back(chars@.take(to as int), p),
        decreases to,
    {
        let ghost rest = chars@.take(to as int);
        assert(p(rest.last()));
        assert(rest.drop_last() == chars@.take(to - 1));
        to = to - 1;
    }
    let ghost last = chars@.take(to as int);
    assert(strip_back(chars@, p) == last) by {
        if last.len() > 0 {
            assert(!p(last.last()));
        }
    }
    assert(chars@.subrange(0, to as int) == last);
    string_of(&chars, 0, to)
}

/// An address with a scheme: one without is taken for a websocket's, and one of
/// a web page for that of a websocket at the same place.
pub open spec fn with_scheme(s: Seq<char>) -> Seq<char> {
    let full = if position(s, "://"@) is Some {
        s
    } else if begins_with(s, "//"@) {
        "ws:"@ + s
    } else {
        "ws://"@ + s
    };
    if begins_with(full, "http://"@) {
        "ws://"@ + full.skip(7)
    } else if begins_with(full, "https://"@) {
        "wss://"@ + full.skip(8)
    } else {
        full
    }
}

/// The path of an address without query, fragment and slashes at its end; the
/// usual one where there is none.
pub open spec fn clean_path(path: Seq<char>) -> Seq<char> {
    let clean = unslashed(text_before(text_before(path, "?"@), "#"@));
    if clean.len() == 0 {
        "/ws"@
    } else {
        clean
    }
}

/// The address that a text stands for; nothing where it stands for none.
pub open spec fn normal_url(raw: Seq<char>) -> Seq<char> {
    let input = trimmed(raw);
    let full = with_scheme(input);
    let scheme = text_before(full, "://"@);
    let rest = text_from(full, "://"@).skip(3);
    if input.len() == 0 || position(full, "://"@) is None || (scheme != "ws"@ && scheme != "wss"@) {
        Seq::empty()
    } else {
        scheme + "://"@ + (text_before(rest, "/"@) + clean_path(text_from(rest, "/"@)))
    }
}

/// The address that a text stands for.
pub fn normalize_ws_url(raw: &str) -> (r: String)
    ensures
        r@ == normal_url(raw@),
{
    proof {
        reveal_strlit("");
        reveal_strlit("://");
        reveal_strlit("http://");
        reveal_strlit("https://");
        assert(""@ == Seq::<char>::empty());
    }
    let input = trim(raw);
    let chars = chars_of(input.as_str());
    if chars.len() == 0 {
        return owned("");
    }
    let full = if find(&chars, &chars_of("://")).is_some() {
        input
    } else if starts_with(input.as_str(), "//") {
        cat("ws:", input.as_str())
    } else {
        cat("ws://", input.as_str())
    };
    let full = if starts_with(full.as_str(), "http://") {
        cat("ws://", skip_chars(full.as_str(), 7).as_str())
    } else if starts_with(full.as_str(), "https://") {
        cat("wss://", skip_chars(full.as_str(), 8).as_str())
    } else {
        full
    };
    if find(&chars_of(full.as_str()), &chars_of("://")).is_none() {
        return owned("");
    }
    let (scheme, rest) = parts(full.as_str(), "://");
    if !same_text(scheme.as_str(), "ws") && !same_text(scheme.as_str(), "wss") {
        return owned("");
    }
    let rest = skip_chars(rest.as_str(), 3);
    let (authority, path) = parts(rest.as_str(), "/");
    let (path, _) = parts(path.as_str(), "?");
    let (path, _) = parts(path.as_str(), "#");
    let path = trim_slashes(path.as_str());
    let path = if chars_of(path.as_str()).len() == 0 {
        owned("/ws")
    } else {
        path
    };
    cat3(scheme.as_str(), "://", cat(authority.as_str(), path.as_str()).as_str())
}

/// The value of a setting as it stands.
pub open spec fn raw_setting(env: Seq<(Seq<char>, Seq<char>)>, name: Seq<char>) -> Option<
    Seq<char>,
>
    decreases env.len(),
{
    if env.len() == 0 {
        None
    } else if env[0].0 == name {
        Some(env[0].1)
    } else {
        raw_setting(env.drop_first(), name)
    }
}

/// The address that a setting holds; nothing where it holds none.
pub open spec fn url_in(env: Seq<(Seq<char>, Seq<char>)>, name: Seq<char>) -> Seq<char> {
    match raw_setting(env, name) {
        Some(s) => normal_url(s),
        None => Seq::empty(),
    }
}

fn find_url(env: &Vec<(String, String)>, name: &str) -> (r: String)
    ensures
        r@ == url_in(setting_views(env@), name@),
{
    let ghost all = setting_views(env@);
    let mut i: usize = 0;
    assert(all.skip(0) == all);
    while i < env.len()
        invariant
            i <= env@.len(),
            all == setting_views(env@),
            raw_setting(all, name@) == raw_setting(all.skip(i as int), name@),
        decreases env@.len() - i,
    {
        assert(all.skip(i as int)[0] == all[i as int]);
        assert(all.skip(i as int).drop_first() == all.skip(i + 1));
        if same_text(env[i].0.as_str(), name) {
            return normalize_ws_url(env[i].1.as_str());
        }
        i = i + 1;
    }
    proof {
        reveal_strlit("");
        assert(""@ == Seq::<char>::empty());
    }
    owned("")
}

/// The address that the settings name: the first one that is an address.
pub open spec fn url_of(env: Seq<(Seq<char>, Seq<char>)>) -> Seq<char> {
    let a = url_in(env, "MICROSERVICEDB_DATABASE_WS_URL"@);
    let b = url_in(env, "MICROSERVICEDB_DATABASE_URL"@);
    let c = url_in(env, "MICROSERVICEDB_DATABASE_BASE_URL"@);
    if a.len() > 0 {
        a
    } else if b.len() > 0 {
        b
    } else if c.len() > 0 {
        c
    } else {
        "ws://127.0.0.1:3329/ws"@
    }
}

/// The address that the settings name.
pub fn resolve_ws_url(env: &Vec<(String, String)>) -> (r: String)
    ensures
        r@ == url_of(setting_views(env@)),
{
    let a = find_url(env, "MICROSERVICEDB_DATABASE_WS_URL");
    if chars_of(a.as_str()).len() > 0 {
        return a;
    }
    let b = find_url(env, "MICROSERVICEDB_DATABASE_URL");
    if chars_of(b.as_str()).len() > 0 {
        return b;
    }
    let c = find_url(env, "MICROSERVICEDB_DATABASE_BASE_URL");
    if chars_of(c.as_str()).len() > 0 {
        return c;
    }
    owned("ws://127.0.0.1:3329/ws")
}

/// Whatever the settings hold, the address is that of a websocket.
pub proof fn lemma_url_is_websocket(env: Seq<(Seq<char>, Seq<char>)>)
    ensures
        begins_with(url_of(env), "ws://"@) || begins_with(url_of(env), "wss://"@),
{
    reveal_strlit("ws://127.0.0.1:3329/ws");
    reveal_strlit("ws://");
    let default = "ws://127.0.0.1:3329/ws"@;
    assert(default.subrange(0, 5) == "ws://"@);
    assert forall|raw: Seq<char>| (#[trigger] normal_url(raw)).len() > 0 implies begins_with(
        normal_url(raw),
        "ws://"@,
    ) || begins_with(normal_url(raw), "wss://"@) by {
        lemma_normal_url_form(raw);
    }
}

/// Where a pattern stands at a place and nowhere before it, that is its first
/// place.
proof fn lemma_position_is(s: Seq<char>, pattern: Seq<char>, at: int)
    requires
        0 <= at <= s.len(),
        begins_with(s.skip(at), pattern),
        forall|j: int| 0 <= j < at ==> !begins_with(#[trigger] s.skip(j), pattern),
    ensures
        position(s, pattern) == Some(at),
    decreases at,
{
    assert(s.skip(0) == s);
    if at > 0 {
        assert(!begins_with(s.skip(0), pattern));
        let t = s.drop_first();
        assert forall|j: int| 0 <= j < at - 1 implies !begins_with(#[trigger] t.skip(j), pattern) by {
            assert(t.skip(j) == s.skip(j + 1));
        }
        assert(t.skip(at - 1) == s.skip(at));
        lemma_position_is(t, pattern, at - 1);
    }
}

/// The first place of a pattern is one where it stands, and it stands nowhere
/// before it.
proof fn lemma_position(s: Seq<char>, pattern: Seq<char>)
    ensures
        match position(s, pattern) {
            Some(at) => 0 <= at <= s.len() && begins_with(s.skip(at), pattern) && forall|j: int|
                0 <= j < at ==> !begins_with(#[trigger] s.skip(j), pattern),
            None => forall|j: int|
                0 <= j <= s.len() ==> !begins_with(#[trigger] s.skip(j), pattern),
        },
    decreases s.len(),
{
    assert(s.skip(0) == s);
    if !begins_with(s, pattern) && s.len() > 0 {
        let t = s.drop_first();
        lemma_position(t, pattern);
        assert forall|j: int| 0 < j <= s.len() implies #[trigger] s.skip(j) == t.skip(j - 1) by {
        }
    }
}

/// What stands before the first of a sign does not hold it, and what stands from
/// it on begins with it.
proof fn lemma_text_before_sign(s: Seq<char>, pattern: Seq<char>, sign: char)
    requires
        pattern == seq![sign],
    ensures
        !text_before(s, pattern).contains(sign),
        text_before(s, pattern) + text_from(s, pattern) == s,
        text_from(s, pattern).len() > 0 ==> text_from(s, pattern)[0] == sign,
        !s.contains(sign) ==> text_before(s, pattern) == s,
{
    lemma_position(s, pattern);
    let a = text_before(s, pattern);
    assert forall|j: int| 0 <= j < a.len() implies a[j] != sign by {
        if s[j] == sign {
            assert(s.skip(j).subrange(0, 1) == pattern);
        }
    }
    assert(a + text_from(s, pattern) == s);
    if let Some(at) = position(s, pattern) {
        assert(s.skip(at).subrange(0, 1)[0] == sign);
        assert(s[at] == sign);
    }
}

/// A text in two at a sign that the first part does not hold.
proof fn lemma_split_at_sign(a: Seq<char>, b: Seq<char>, pattern: Seq<char>, sign: char)
    requires
        pattern == seq![sign],
        !a.contains(sign),
        b.len() > 0,
        b[0] == sign,
    ensures
        text_before(a + b, pattern) == a,
        text_from(a + b, pattern) == b,
{
    let s = a + b;
    let at = a.len() as int;
    assert forall|j: int| 0 <= j < at implies !begins_with(#[trigger] s.skip(j), pattern) by {
        if begins_with(s.skip(j), pattern) {
            assert(s.skip(j).subrange(0, 1)[0] == sign);
            assert(a[j] == sign);
        }
    }
    assert(s.skip(at) == b);
    assert(b.subrange(0, 1) == pattern);
    lemma_position_is(s, pattern, at);
    assert(s.take(at) == a);
}

/// What is left of a text is how the text begins, and ends in no character that
/// is dropped.
proof fn lemma_strip_back(s: Seq<char>, drop: spec_fn(char) -> bool)
    ensures
        strip_back(s, drop).len() > 0 ==> !drop(strip_back(s, drop).last()),
        strip_back(s, drop).len() <= s.len(),
        strip_back(s, drop) == s.take(strip_back(s, drop).len() as int),
    decreases s.len(),
{
    if s.len() > 0 && drop(s.last()) {
        lemma_strip_back(s.drop_last(), drop);
        let n = strip_back(s, drop).len() as int;
        assert(s.drop_last().take(n) == s.take(n));
    } else {
        assert(s.take(s.len() as int) == s);
    }
}

/// What a path is like once it is clean.
pub open spec fn is_clean(path: Seq<char>) -> bool {
    path.len() > 0 && path[0] == '/' && path.last() != '/' && !path.contains('?') && !path.contains(
        '#',
    )
}

proof fn lemma_clean_path(path: Seq<char>)
    requires
        path.len() > 0 ==> path[0] == '/',
    ensures
        is_clean(clean_path(path)),
        is_clean(path) ==> clean_path(path) == path,
        forall|i: int|
            0 <= i < clean_path(path).len() ==> path.contains(#[trigger] clean_path(path)[i])
                || "/ws"@.contains(clean_path(path)[i]),
{
    reveal_strlit("?");
    reveal_strlit("#");
    reveal_strlit("/ws");
    assert("?"@ == seq!['?']);
    assert("#"@ == seq!['#']);
    assert("/ws"@ == seq!['/', 'w', 's']);
    let a = text_before(path, "?"@);
    let b = text_before(a, "#"@);
    let c = unslashed(b);
    lemma_text_before_sign(path, "?"@, '?');
    lemma_text_before_sign(a, "#"@, '#');
    lemma_strip_back(b, |x: char| is_slash(x));
    assert(a == path.take(a.len() as int)) by {
        lemma_position(path, "?"@);
        assert(path.take(path.len() as int) == path);
    }
    assert(b == a.take(b.len() as int)) by {
        lemma_position(a, "#"@);
        assert(a.take(a.len() as int) == a);
    }
    assert forall|i: int| 0 <= i < c.len() implies c[i] == path[i] && c[i] != '?' && c[i] != '#' by {
        assert(c[i] == b[i]);
        assert(b[i] == a[i]);
        assert(a[i] == path[i]);
        assert(b.contains(b[i]));
        assert(a.contains(a[i]));
    }
    if c.len() > 0 {
        assert(c[0] == path[0]);
    }
    if is_clean(path) {
        assert(a == path);
        assert(b == path);
        assert(c == path);
    }
    let r = clean_path(path);
    assert forall|i: int| 0 <= i < r.len() implies path.contains(#[trigger] r[i]) || "/ws"@.contains(
        r[i],
    ) by {
        if c.len() > 0 {
            assert(r[i] == path[i]);
        }
    }
}

/// An address in two: a scheme without a colon, and the rest.
proof fn lemma_scheme_is(scheme: Seq<char>, rest: Seq<char>)
    requires
        !scheme.contains(':'),
    ensures
        position(scheme + "://"@ + rest, "://"@) == Some(scheme.len() as int),
        text_before(scheme + "://"@ + rest, "://"@) == scheme,
        text_from(scheme + "://"@ + rest, "://"@).skip(3) == rest,
{
    reveal_strlit("://");
    let mark = "://"@;
    let s = scheme + mark + rest;
    let at = scheme.len() as int;
    assert forall|j: int| 0 <= j < at implies !begins_with(#[trigger] s.skip(j), mark) by {
        if begins_with(s.skip(j), mark) {
            assert(s.skip(j).subrange(0, 3)[0] == ':');
            assert(scheme[j] == ':');
        }
    }
    assert(s.skip(at).subrange(0, 3) == mark);
    lemma_position_is(s, mark, at);
    assert(s.take(at) == scheme);
    assert(s.skip(at).skip(3) == rest);
}

/// An address is its scheme, the mark behind it, and the rest.
proof fn lemma_scheme_parts(s: Seq<char>)
    requires
        position(s, "://"@) is Some,
    ensures
        s == text_before(s, "://"@) + "://"@ + text_from(s, "://"@).skip(3),
{
    reveal_strlit("://");
    lemma_position(s, "://"@);
    let at = position(s, "://"@)->Some_0;
    let t = s.skip(at);
    assert(t == t.subrange(0, 3) + t.skip(3));
    assert(s == s.take(at) + t);
    assert(s.take(at) + "://"@ + t.skip(3) == s.take(at) + ("://"@ + t.skip(3)));
}

pub open spec fn is_websocket_scheme(scheme: Seq<char>) -> bool {
    scheme == "ws"@ || scheme == "wss"@
}

/// Whether a text names a scheme that is neither a websocket's nor a web page's.
pub open spec fn has_other_scheme(s: Seq<char>) -> bool {
    let scheme = text_before(s, "://"@);
    position(s, "://"@) is Some && !is_websocket_scheme(scheme) && scheme != "http"@ && scheme
        != "https"@
}

proof fn lemma_with_scheme(s: Seq<char>)
    ensures
        position(with_scheme(s), "://"@) is Some,
        is_websocket_scheme(text_before(with_scheme(s), "://"@)) <==> !has_other_scheme(s),
        forall|i: int|
            0 <= i < with_scheme(s).len() ==> s.contains(#[trigger] with_scheme(s)[i])
                || !is_white(with_scheme(s)[i]),
{
    reveal_strlit("://");
    reveal_strlit("//");
    reveal_strlit("ws");
    reveal_strlit("wss");
    reveal_strlit("ws:");
    reveal_strlit("ws://");
    reveal_strlit("wss://");
    reveal_strlit("http");
    reveal_strlit("https");
    reveal_strlit("http://");
    reveal_strlit("https://");
    assert("ws"@ + "://"@ == "ws://"@);
    assert("wss"@ + "://"@ == "wss://"@);
    assert("http"@ + "://"@ == "http://"@);
    assert("https"@ + "://"@ == "https://"@);
    let full = with_scheme(s);
    if position(s, "://"@) is None {
        let plain = if begins_with(s, "//"@) {
            "ws:"@ + s
        } else {
            "ws://"@ + s
        };
        assert(plain[0] == 'w');
        assert(!begins_with(plain, "http://"@)) by {
            if begins_with(plain, "http://"@) {
                assert(plain.subrange(0, 7)[0] == 'h');
            }
        }
        assert(!begins_with(plain, "https://"@)) by {
            if begins_with(plain, "https://"@) {
                assert(plain.subrange(0, 8)[0] == 'h');
            }
        }
        if begins_with(s, "//"@) {
            assert(s == s.subrange(0, 2) + s.skip(2));
            assert("ws:"@ + s == "ws"@ + "://"@ + s.skip(2));
            lemma_scheme_is("ws"@, s.skip(2));
        } else {
            lemma_scheme_is("ws"@, s);
        }
    } else {
        lemma_scheme_parts(s);
        let scheme = text_before(s, "://"@);
        let rest = text_from(s, "://"@).skip(3);
        if begins_with(s, "http://"@) {
            assert(s == "http"@ + "://"@ + s.skip(7));
            lemma_scheme_is("http"@, s.skip(7));
            lemma_scheme_is("ws"@, s.skip(7));
        } else if begins_with(s, "https://"@) {
            assert(s == "https"@ + "://"@ + s.skip(8));
            lemma_scheme_is("https"@, s.skip(8));
            lemma_scheme_is("wss"@, s.skip(8));
        } else {
            if scheme == "http"@ {
                assert(s.subrange(0, 7) == "http://"@);
            }
            if scheme == "https"@ {
                assert(s.subrange(0, 8) == "https://"@);
            }
        }
    }
    assert forall|i: int| 0 <= i < full.len() implies s.contains(#[trigger] full[i]) || !is_white(
        full[i],
    ) by {
        let k = i - (full.len() - s.len());
        if 0 <= k < s.len() && full[i] == s[k] {
            assert(s.contains(s[k]));
        }
    }
}

/// The parts of an address: its scheme, its authority, and its path.
proof fn lemma_address_parts(raw: Seq<char>)
    requires
        normal_url(raw).len() > 0,
    ensures
        ({
            let full = with_scheme(trimmed(raw));
            let scheme = text_before(full, "://"@);
            let rest = text_from(full, "://"@).skip(3);
            let authority = text_before(rest, "/"@);
            let path = clean_path(text_from(rest, "/"@));
            &&& is_websocket_scheme(scheme)
            &&& !authority.contains('/')
            &&& is_clean(path)
            &&& normal_url(raw) == scheme + "://"@ + (authority + path)
            &&& trimmed(raw).contains(path.last()) || !is_white(path.last())
        }),
{
    reveal_strlit("/");
    reveal_strlit("/ws");
    assert("/"@ == seq!['/']);
    let full = with_scheme(trimmed(raw));
    let rest = text_from(full, "://"@).skip(3);
    let tail = text_from(rest, "/"@);
    let path = clean_path(tail);
    lemma_with_scheme(trimmed(raw));
    lemma_text_before_sign(rest, "/"@, '/');
    lemma_clean_path(tail);
    let c = path.last();
    assert(c == path[path.len() - 1]);
    if tail.contains(c) {
        let k = tail.index_of(c);
        assert(rest[text_before(rest, "/"@).len() + k] == c);
        lemma_scheme_parts(full);
        assert(full[full.len() - rest.len() + (text_before(rest, "/"@).len() + k)] == c);
    } else {
        assert("/ws"@.contains(c));
    }
}

/// A text stands for no address exactly where it is blank or names a scheme that
/// is neither a websocket's nor a web page's.  An address is that of a websocket,
/// and ends in no slash.
pub proof fn lemma_normal_url_form(raw: Seq<char>)
    ensures
        normal_url(raw).len() == 0 <==> trimmed(raw).len() == 0 || has_other_scheme(trimmed(raw)),
        normal_url(raw).len() > 0 ==> begins_with(normal_url(raw), "ws://"@) || begins_with(
            normal_url(raw),
            "wss://"@,
        ),
        normal_url(raw).len() > 0 ==> normal_url(raw).last() != '/',
{
    reveal_strlit("ws");
    reveal_strlit("wss");
    reveal_strlit("://");
    reveal_strlit("ws://");
    reveal_strlit("wss://");
    lemma_with_scheme(trimmed(raw));
    let u = normal_url(raw);
    if u.len() > 0 {
        lemma_address_parts(raw);
        let scheme = text_before(with_scheme(trimmed(raw)), "://"@);
        if scheme == "ws"@ {
            assert(u.subrange(0, 5) == "ws://"@);
        } else {
            assert(u.subrange(0, 6) == "wss://"@);
        }
    }
}

/// To take the address of an address gives the same address, where it does not
/// end in white space.
pub proof fn lemma_normal_url_settles(raw: Seq<char>)
    requires
        normal_url(raw).len() > 0 ==> !is_white(normal_url(raw).last()),
    ensures
        normal_url(normal_url(raw)) == normal_url(raw),
{
    let u = normal_url(raw);
    if u.len() > 0 {
        reveal_strlit("ws");
        reveal_strlit("wss");
        reveal_strlit("://");
        reveal_strlit("http://");
        reveal_strlit("https://");
        reveal_strlit("/");
        assert("/"@ == seq!['/']);
        lemma_address_parts(raw);
        let full = with_scheme(trimmed(raw));
        let scheme = text_before(full, "://"@);
        let rest = text_from(full, "://"@).skip(3);
        let authority = text_before(rest, "/"@);
        let path = clean_path(text_from(rest, "/"@));
        assert(u[0] == 'w');
        assert(trimmed(u) == u);
        lemma_scheme_is(scheme, authority + path);
        assert(!begins_with(u, "http://"@)) by {
            if begins_with(u, "http://"@) {
                assert(u.subrange(0, 7)[0] == 'h');
            }
        }
        assert(!begins_with(u, "https://"@)) by {
            if begins_with(u, "https://"@) {
                assert(u.subrange(0, 8)[0] == 'h');
            }
        }
        assert(with_scheme(u) == u);
        lemma_split_at_sign(authority, path, "/"@, '/');
        lemma_clean_path(path);
    }
}

/// A text without white space inside settles at once: the address that it stands
/// for, if it stands for one, stands for itself, is that of a websocket, and ends
/// in no slash.  It stands for none exactly where it is blank or names a scheme
/// that is neither a websocket's nor a web page's.
pub proof fn lemma_normal_url_of_plain_text(raw: Seq<char>)
    requires
        forall|i: int| 0 <= i < trimmed(raw).len() ==> !is_white(#[trigger] trimmed(raw)[i]),
    ensures
        normal_url(normal_url(raw)) == normal_url(raw),
        normal_url(raw).len() == 0 || ((begins_with(normal_url(raw), "ws://"@) || begins_with(
            normal_url(raw),
            "wss://"@,
        )) && normal_url(raw).last() != '/'),
        normal_url(raw).len() == 0 <==> trimmed(raw).len() == 0 || has_other_scheme(trimmed(raw)),
{
    lemma_normal_url_form(raw);
    if normal_url(raw).len() > 0 {
        lemma_address_parts(raw);
    }
    lemma_normal_url_settles(raw);
}

/// Whether a text can be the host and port of an address.
pub open spec fn is_authority(s: Seq<char>) -> bool {
    s.len() > 0 && s.last() != ':' && forall|i: int|
        0 <= i < s.len() ==> (#[trigger] s[i]) != '/' && s[i] != '?' && s[i] != '#' && !is_white(s[i])
}

/// Whether a text can be the path of an address.
pub open spec fn is_plain_path(s: Seq<char>) -> bool {
    is_clean(s) && forall|i: int| 0 <= i < s.len() ==> (#[trigger] s[i]) != ':' && !is_white(s[i])
}

proof fn lemma_untouched(s: Seq<char>)
    requires
        forall|i: int| 0 <= i < s.len() ==> !is_white(#[trigger] s[i]),
    ensures
        trimmed(s) == s,
{
    let none = Seq::<char>::empty();
    crate::text::lemma_trimming_is_exact(none, s, none);
    assert(none + s + none == s);
}

proof fn lemma_no_mark(host: Seq<char>, path: Seq<char>)
    requires
        is_authority(host),
        forall|i: int| 0 <= i < path.len() ==> (#[trigger] path[i]) != ':',
    ensures
        position(host + path, "://"@) is None,
{
    reveal_strlit("://");
    let s = host + path;
    lemma_position(s, "://"@);
    if let Some(at) = position(s, "://"@) {
        let t = s.skip(at);
        assert(t.subrange(0, 3)[0] == ':' && t.subrange(0, 3)[1] == '/');
        assert(s[at] == ':' && s[at + 1] == '/');
        if at < host.len() {
            assert(s[at] == host[at]);
            if at + 1 < host.len() {
                assert(s[at + 1] == host[at + 1]);
            }
        } else {
            assert(s[at] == path[at - host.len()]);
        }
    }
}

proof fn lemma_built(scheme: Seq<char>, host: Seq<char>, tail: Seq<char>)
    requires
        is_websocket_scheme(scheme),
        is_authority(host),
        tail.len() > 0 ==> tail[0] == '/',
        forall|i: int| 0 <= i < tail.len() ==> !is_white(#[trigger] tail[i]),
    ensures
        normal_url(scheme + "://"@ + (host + tail)) == scheme + "://"@ + (host + clean_path(tail)),
{
    reveal_strlit("://");
    reveal_strlit("ws");
    reveal_strlit("wss");
    reveal_strlit("http://");
    reveal_strlit("https://");
    reveal_strlit("/");
    let rest = host + tail;
    let full = scheme + "://"@ + rest;
    assert(!scheme.contains(':'));
    lemma_scheme_is(scheme, rest);
    assert forall|i: int| 0 <= i < full.len() implies !is_white(#[trigger] full[i]) by {
        if i < scheme.len() {
            assert(full[i] == scheme[i]);
        } else if i < scheme.len() + 3 {
            assert(full[i] == "://"@[i - scheme.len()]);
        } else if i < scheme.len() + 3 + host.len() {
            assert(full[i] == host[i - scheme.len() - 3]);
        } else {
            assert(full[i] == tail[i - scheme.len() - 3 - host.len()]);
        }
    }
    lemma_untouched(full);
    assert(full[0] == 'w') by {
        assert(full[0] == scheme[0]);
    }
    assert(!begins_with(full, "http://"@)) by {
        if begins_with(full, "http://"@) {
            assert(full.subrange(0, 7)[0] == 'h');
        }
    }
    assert(!begins_with(full, "https://"@)) by {
        if begins_with(full, "https://"@) {
            assert(full.subrange(0, 8)[0] == 'h');
        }
    }
    assert(with_scheme(full) == full);
    assert("/"@ == seq!['/']);
    assert(!host.contains('/'));
    if tail.len() > 0 {
        lemma_split_at_sign(host, tail, "/"@, '/');
    } else {
        assert(host + tail == host);
        lemma_text_before_sign(host, "/"@, '/');
        assert(text_from(host, "/"@).len() == 0);
        assert(text_from(host, "/"@) == tail);
    }
}

#[verifier::rlimit(40)]
proof fn lemma_web_scheme(host: Seq<char>, tail: Seq<char>)
    requires
        is_authority(host),
        tail.len() > 0 ==> tail[0] == '/',
        forall|i: int| 0 <= i < tail.len() ==> !is_white(#[trigger] tail[i]),
    ensures
        ({
            let rest = host + tail;
            let path = clean_path(tail);
            &&& normal_url("ws://"@ + rest) == "ws://"@ + (host + path)
            &&& normal_url("wss://"@ + rest) == "wss://"@ + (host + path)
            &&& normal_url("http://"@ + rest) == "ws://"@ + (host + path)
            &&& normal_url("https://"@ + rest) == "wss://"@ + (host + path)
            &&& position(rest, "://"@) is None ==> normal_url(rest) == "ws://"@ + (host + path)
        }),
{
    reveal_strlit("://");
    reveal_strlit("//");
    reveal_strlit("ws");
    reveal_strlit("wss");
    reveal_strlit("ws://");
    reveal_strlit("wss://");
    reveal_strlit("http");
    reveal_strlit("https");
    reveal_strlit("http://");
    reveal_strlit("https://");
    let rest = host + tail;
    assert("ws"@ + "://"@ == "ws://"@);
    assert("wss"@ + "://"@ == "wss://"@);
    assert("http"@ + "://"@ == "http://"@);
    assert("https"@ + "://"@ == "https://"@);
    lemma_built("ws"@, host, tail);
    lemma_built("wss"@, host, tail);
    assert forall|i: int| 0 <= i < rest.len() implies !is_white(#[trigger] rest[i]) by {
        if i < host.len() {
            assert(rest[i] == host[i]);
        } else {
            assert(rest[i] == tail[i - host.len()]);
        }
    }
    let a = "http://"@ + rest;
    let b = "https://"@ + rest;
    assert forall|i: int| 0 <= i < a.len() implies !is_white(#[trigger] a[i]) by {
        if i >= 7 {
            assert(a[i] == rest[i - 7]);
        }
    }
    assert forall|i: int| 0 <= i < b.len() implies !is_white(#[trigger] b[i]) by {
        if i >= 8 {
            assert(b[i] == rest[i - 8]);
        }
    }
    lemma_untouched(a);
    lemma_untouched(b);
    lemma_untouched(rest);
    assert(!"http"@.contains(':') && !"https"@.contains(':'));
    lemma_scheme_is("http"@, rest);
    lemma_scheme_is("https"@, rest);
    assert(a.subrange(0, 7) == "http://"@ && a.skip(7) == rest);
    assert(b.subrange(0, 8) == "https://"@ && b.skip(8) == rest);
    assert(!begins_with(b, "http://"@)) by {
        if begins_with(b, "http://"@) {
            assert(b.subrange(0, 7)[4] == 's' && "http://"@[4] == ':');
        }
    }
    assert(with_scheme(a) == "ws://"@ + rest);
    assert(with_scheme(b) == "wss://"@ + rest);
    let c = "ws://"@ + rest;
    let d = "wss://"@ + rest;
    assert forall|i: int| 0 <= i < c.len() implies !is_white(#[trigger] c[i]) by {
        if i >= 5 {
            assert(c[i] == rest[i - 5]);
        }
    }
    assert forall|i: int| 0 <= i < d.len() implies !is_white(#[trigger] d[i]) by {
        if i >= 6 {
            assert(d[i] == rest[i - 6]);
        }
    }
    lemma_untouched(c);
    lemma_untouched(d);
    lemma_scheme_is("ws"@, rest);
    lemma_scheme_is("wss"@, rest);
    lemma_plain_scheme(c);
    lemma_plain_scheme(d);
    if position(rest, "://"@) is None {
        assert(!begins_with(rest, "//"@)) by {
            if begins_with(rest, "//"@) {
                assert(rest.subrange(0, 2)[0] == '/');
                assert(rest[0] == host[0]);
            }
        }
        assert(with_scheme(rest) == c);
    }
}

/// An address that begins like that of a websocket keeps its beginning.
proof fn lemma_plain_scheme(s: Seq<char>)
    requires
        position(s, "://"@) is Some,
        s.len() > 0,
        s[0] == 'w',
    ensures
        with_scheme(s) == s,
{
    reveal_strlit("http://");
    reveal_strlit("https://");
    if begins_with(s, "http://"@) {
        assert(s.subrange(0, 7)[0] == 'h');
    }
    if begins_with(s, "https://"@) {
        assert(s.subrange(0, 8)[0] == 'h');
    }
}

/// The address of a host and a path: a websocket's, a secure one where a secure
/// web page was named, at that host and path, or at the usual path where none is
/// given.  A query, a fragment and a slash at the end are left out.
#[verifier::rlimit(40)]
pub proof fn lemma_address_is_built(host: Seq<char>, path: Seq<char>, more: Seq<char>)
    requires
        is_authority(host),
        is_plain_path(path),
        forall|i: int| 0 <= i < more.len() ==> !is_white(#[trigger] more[i]) && more[i] != ':' && more[i] != '?',
    ensures
        ({
            let address = host + path;
            &&& normal_url(address) == "ws://"@ + address
            &&& normal_url("ws://"@ + address) == "ws://"@ + address
            &&& normal_url("wss://"@ + address) == "wss://"@ + address
            &&& normal_url("http://"@ + address) == "ws://"@ + address
            &&& normal_url("https://"@ + address) == "wss://"@ + address
            &&& normal_url(host) == "ws://"@ + (host + "/ws"@)
            &&& normal_url("https://"@ + host) == "wss://"@ + (host + "/ws"@)
            &&& normal_url("wss://"@ + (host + (path + "?"@ + more))) == "wss://"@ + address
            &&& normal_url("wss://"@ + (host + (path + "#"@ + more))) == "wss://"@ + address
            &&& normal_url("wss://"@ + (host + path.push('/'))) == "wss://"@ + address
        }),
{
    reveal_strlit("/ws");
    reveal_strlit("?");
    reveal_strlit("#");
    assert("?"@ == seq!['?'] && "#"@ == seq!['#']);
    let none = Seq::<char>::empty();
    assert(host + none == host);
    lemma_no_mark(host, path);
    lemma_no_mark(host, none);
    lemma_web_scheme(host, path);
    lemma_web_scheme(host, none);
    lemma_clean_path(path);
    lemma_text_before_sign(none, "?"@, '?');
    lemma_text_before_sign(none, "#"@, '#');
    assert(unslashed(none) == none);
    assert(clean_path(none) == "/ws"@);
    let q = path + "?"@ + more;
    let f = path + "#"@ + more;
    let l = path.push('/');
    assert forall|i: int| 0 <= i < q.len() implies !is_white(#[trigger] q[i]) by {
        if i < path.len() {
            assert(q[i] == path[i]);
        } else if i > path.len() {
            assert(q[i] == more[i - path.len() - 1]);
        }
    }
    assert forall|i: int| 0 <= i < f.len() implies !is_white(#[trigger] f[i]) && f[i] != '?' by {
        if i < path.len() {
            assert(f[i] == path[i]);
            assert(path.contains(path[i]));
        } else if i > path.len() {
            assert(f[i] == more[i - path.len() - 1]);
        }
    }
    assert forall|i: int| 0 <= i < l.len() implies !is_white(#[trigger] l[i]) && l[i] != '?' && l[i] != '#' by {
        if i < path.len() {
            assert(l[i] == path[i]);
            assert(path.contains(path[i]));
        }
    }
    lemma_web_scheme(host, q);
    lemma_web_scheme(host, f);
    lemma_web_scheme(host, l);
    lemma_text_before_sign(path, "?"@, '?');
    lemma_text_before_sign(path, "#"@, '#');
    assert(q == path + ("?"@ + more));
    lemma_split_at_sign(path, "?"@ + more, "?"@, '?');
    assert(!f.contains('?'));
    lemma_text_before_sign(f, "?"@, '?');
    assert(f == path + ("#"@ + more));
    lemma_split_at_sign(path, "#"@ + more, "#"@, '#');
    assert(!l.contains('?') && !l.contains('#'));
    lemma_text_before_sign(l, "?"@, '?');
    lemma_text_before_sign(l, "#"@, '#');
    assert(l.drop_last() == path);
    assert(unslashed(l) == unslashed(path));
}

} // verus!
