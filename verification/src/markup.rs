//! Text as Pango markup that shows it literally.

use vstd::prelude::*;

use crate::scene;
use crate::text;

verus! {

/// The control characters that markup cannot hold as they are.
pub open spec fn is_control(c: char) -> bool {
    let n = c as int;
    ||| 0x1 <= n <= 0x8
    ||| 0xb <= n <= 0xc
    ||| 0xe <= n <= 0x1f
    ||| 0x7f <= n <= 0x84
    ||| 0x86 <= n <= 0x9f
}

/// `n` in lowercase hexadecimal, for `n` below 256.
pub open spec fn short_hex(n: int) -> Seq<char> {
    if n < 16 {
        seq![scene::hex_digit(n)]
    } else {
        seq![scene::hex_digit(n / 16), scene::hex_digit(n % 16)]
    }
}

/// `c` as markup: itself, or a reference where markup gives it another meaning or
/// none.
pub open spec fn entity(c: char) -> Seq<char> {
    if c == '&' {
        seq!['&', 'a', 'm', 'p', ';']
    } else if c == '<' {
        seq!['&', 'l', 't', ';']
    } else if c == '>' {
        seq!['&', 'g', 't', ';']
    } else if c == '\'' {
        seq!['&', '#', '3', '9', ';']
    } else if c == '"' {
        seq!['&', 'q', 'u', 'o', 't', ';']
    } else if is_control(c) {
        seq!['&', '#', 'x'] + short_hex(c as int) + seq![';']
    } else {
        seq![c]
    }
}

/// Each character of `s` as markup.
pub open spec fn entities(s: Seq<char>) -> Seq<char>
    decreases s.len(),
{
    if s.len() == 0 {
        Seq::empty()
    } else {
        entities(s.drop_last()) + entity(s.last())
    }
}

/// `s` up to its first NUL, where a C string ends.
pub open spec fn before_nul(s: Seq<char>) -> Seq<char>
    decreases s.len(),
{
    if s.len() == 0 {
        s
    } else {
        let t = before_nul(s.drop_last());
        if t.len() < s.len() - 1 || s.last() == '\0' {
            t
        } else {
            s
        }
    }
}

/// `s` as markup that shows it literally, up to the first NUL.
pub open spec fn escaped(s: Seq<char>) -> Seq<char> {
    entities(before_nul(s))
}

proof fn lemma_before_nul(s: Seq<char>, n: int)
    requires
        0 <= n <= s.len(),
        before_nul(s.take(n)) == s.take(n),
        n < s.len() ==> s[n] == '\0',
    ensures
        before_nul(s) == s.take(n),
    decreases s.len(),
{
    if n == s.len() {
        assert(s.take(n) =~= s);
    } else {
        let t = s.drop_last();
        assert(t.take(n) =~= s.take(n));
        if n < t.len() {
            lemma_before_nul(t, n);
        } else {
            assert(t =~= s.take(n));
        }
    }
}

fn push_entity(out: &mut String, c: char)
    ensures
        final(out)@ == old(out)@ + entity(c),
{
    proof {
        reveal_strlit("&amp;");
        reveal_strlit("&lt;");
        reveal_strlit("&gt;");
        reveal_strlit("&#39;");
        reveal_strlit("&quot;");
        reveal_strlit("&#x");
    }
    let ghost before = out@;
    if c == '&' {
        out.append("&amp;");
    } else if c == '<' {
        out.append("&lt;");
    } else if c == '>' {
        out.append("&gt;");
    } else if c == '\'' {
        out.append("&#39;");
    } else if c == '"' {
        out.append("&quot;");
    } else {
        let n: u32 = c as u32;
        if 0x1 <= n && n <= 0x8 || 0xb <= n && n <= 0xc || 0xe <= n && n <= 0x1f || 0x7f <= n && n
            <= 0x84 || 0x86 <= n && n <= 0x9f {
            out.append("&#x");
            if n >= 16 {
                out.push(scene::show_hex((n / 16) as u8));
            }
            out.push(scene::show_hex((n % 16) as u8));
            out.push(';');
        } else {
            out.push(c);
        }
    }
    assert(out@ =~= before + entity(c));
}

/// Escape `s` so that it shows literally: `&`, `<`, `>`, quotes and control
/// characters become references, and the text ends at the first NUL.
pub fn markup_escape_text(s: &str) -> (r: String)
    ensures
        r@ == escaped(s@),
{
    let v = text::chars_of(s);
    let mut out = String::new();
    assert(s@.take(0) =~= Seq::<char>::empty());
    for i in 0..v.len()
        invariant
            v@ == s@,
            before_nul(s@.take(i as int)) == s@.take(i as int),
            out@ == entities(s@.take(i as int)),
    {
        let c = v[i];
        if c == '\0' {
            proof {
                lemma_before_nul(s@, i as int);
            }
            return out;
        }
        proof {
            assert(s@.take(i + 1).drop_last() =~= s@.take(i as int));
        }
        push_entity(&mut out, c);
    }
    assert(s@.take(s@.len() as int) =~= s@);
    out
}

/// Whether `m` starts with `p`.
pub open spec fn starts_with(m: Seq<char>, p: Seq<char>) -> bool {
    p.len() <= m.len() && m.take(p.len() as int) == p
}

/// The reference that `m` starts with: the character it stands for, and how many
/// characters of `m` it takes.
pub open spec fn reference(m: Seq<char>) -> Option<(char, int)> {
    if starts_with(m, seq!['&', 'a', 'm', 'p', ';']) {
        Some(('&', 5))
    } else if starts_with(m, seq!['&', 'l', 't', ';']) {
        Some(('<', 4))
    } else if starts_with(m, seq!['&', 'g', 't', ';']) {
        Some(('>', 4))
    } else if starts_with(m, seq!['&', 'q', 'u', 'o', 't', ';']) {
        Some(('"', 6))
    } else if starts_with(m, seq!['&', '#', '3', '9', ';']) {
        Some(('\'', 5))
    } else if starts_with(m, seq!['&', '#', 'x']) && m.len() >= 5 && scene::is_hex(m[3]) && m[4]
        == ';' {
        Some((scene::hex_value(m[3]) as char, 5))
    } else if starts_with(m, seq!['&', '#', 'x']) && m.len() >= 6 && scene::is_hex(m[3])
        && scene::is_hex(m[4]) && m[5] == ';' {
        Some(((scene::hex_value(m[3]) * 16 + scene::hex_value(m[4])) as char, 6))
    } else {
        None
    }
}

/// The text that markup shows, read left to right: references stand for their
/// character, and nothing is shown of markup that holds a tag or a reference that
/// does not read.
pub open spec fn shown_text(m: Seq<char>) -> Option<Seq<char>>
    decreases m.len(),
{
    if m.len() == 0 {
        Some(Seq::empty())
    } else if m[0] == '<' {
        None
    } else if m[0] == '&' {
        match reference(m) {
            Some((c, n)) => if 0 < n <= m.len() {
                match shown_text(m.skip(n)) {
                    Some(rest) => Some(seq![c] + rest),
                    None => None,
                }
            } else {
                None
            },
            None => None,
        }
    } else {
        match shown_text(m.skip(1)) {
            Some(rest) => Some(seq![m[0]] + rest),
            None => None,
        }
    }
}

proof fn lemma_entity_reads_back(c: char, rest: Seq<char>)
    requires
        c != '\0',
        shown_text(rest) is Some,
    ensures
        shown_text(entity(c) + rest) == Some(seq![c] + shown_text(rest)->0),
{
    let m = entity(c) + rest;
    assert(m.skip(entity(c).len() as int) =~= rest);
    let n = c as int;
    if c == '&' {
        assert(m.take(5) =~= seq!['&', 'a', 'm', 'p', ';']);
    } else if c == '<' {
        assert(m.take(4) =~= seq!['&', 'l', 't', ';']);
        assert(m.len() >= 5 ==> m.take(5)[1] == 'l');
    } else if c == '>' {
        assert(m.take(4) =~= seq!['&', 'g', 't', ';']);
        assert(m.len() >= 5 ==> m.take(5)[1] == 'g');
    } else if c == '"' {
        assert(m.take(6) =~= seq!['&', 'q', 'u', 'o', 't', ';']);
        assert(m.take(5)[1] == 'q' && m.take(4)[1] == 'q');
    } else if c == '\'' {
        assert(m.take(5) =~= seq!['&', '#', '3', '9', ';']);
        assert(m.take(5)[1] == '#' && m.take(4)[1] == '#');
        assert(m.len() >= 6 ==> m.take(6)[1] == '#');
    } else if is_control(c) {
        assert(m.take(3) =~= seq!['&', '#', 'x']);
        assert(m.take(5)[1] == '#' && m.take(4)[1] == '#' && m.take(5)[2] == 'x');
        assert(m.len() >= 6 ==> m.take(6)[1] == '#');
        assert(scene::hex_value(scene::hex_digit(n % 16)) == n % 16);
        if n < 16 {
            assert(m[3] == scene::hex_digit(n) && m[4] == ';');
        } else {
            assert(scene::hex_value(scene::hex_digit(n / 16)) == n / 16);
            assert(m[3] == scene::hex_digit(n / 16) && m[4] == scene::hex_digit(n % 16) && m[5]
                == ';');
        }
    } else {
        assert(m[0] == c);
    }
}

proof fn lemma_entities_front(c: char, s: Seq<char>)
    ensures
        entities(seq![c] + s) == entity(c) + entities(s),
    decreases s.len(),
{
    let all = seq![c] + s;
    if s.len() == 0 {
        assert(all.drop_last() =~= Seq::<char>::empty());
        assert(all =~= seq![c]);
        assert(entities(all.drop_last()) =~= Seq::<char>::empty());
    } else {
        lemma_entities_front(c, s.drop_last());
        assert(all.drop_last() =~= seq![c] + s.drop_last());
        assert(all.last() == s.last());
    }
    assert(entities(all) =~= entity(c) + entities(s));
}

proof fn lemma_entities_read_back(s: Seq<char>)
    requires
        forall|i: int| 0 <= i < s.len() ==> s[i] != '\0',
    ensures
        shown_text(entities(s)) == Some(s),
    decreases s.len(),
{
    if s.len() > 0 {
        let rest = s.skip(1);
        assert(s =~= seq![s[0]] + rest);
        lemma_entities_front(s[0], rest);
        assert forall|i: int| 0 <= i < rest.len() implies rest[i] != '\0' by {
            assert(rest[i] == s[i + 1]);
        }
        lemma_entities_read_back(rest);
        lemma_entity_reads_back(s[0], entities(rest));
    } else {
        assert(s =~= Seq::<char>::empty());
    }
}

proof fn lemma_no_nul_before_nul(s: Seq<char>)
    ensures
        forall|i: int| 0 <= i < before_nul(s).len() ==> before_nul(s)[i] != '\0',
        before_nul(s).is_prefix_of(s),
        (forall|i: int| 0 <= i < s.len() ==> s[i] != '\0') ==> before_nul(s) == s,
    decreases s.len(),
{
    if s.len() > 0 {
        let t = s.drop_last();
        lemma_no_nul_before_nul(t);
        assert(s[s.len() - 1] == s.last());
        if before_nul(t).len() == t.len() {
            assert(before_nul(t) =~= t);
            if s.last() != '\0' {
                assert forall|i: int| 0 <= i < s.len() implies s[i] != '\0' by {
                    if i < t.len() {
                        assert(s[i] == before_nul(t)[i]);
                    }
                }
            }
        }
        if forall|i: int| 0 <= i < s.len() ==> s[i] != '\0' {
            assert forall|i: int| 0 <= i < t.len() implies t[i] != '\0' by {
                assert(t[i] == s[i]);
            }
        }
    }
}

/// Escaped text shows exactly what was escaped, up to the first NUL: whatever it
/// holds, no character of it acts as markup and none is lost.
pub proof fn law_escaped_text_shows_literally(s: Seq<char>)
    ensures
        shown_text(escaped(s)) == Some(before_nul(s)),
        before_nul(s).is_prefix_of(s),
        (forall|i: int| 0 <= i < s.len() ==> s[i] != '\0') ==> before_nul(s) == s,
{
    lemma_no_nul_before_nul(s);
    lemma_entities_read_back(before_nul(s));
}

} // verus!
