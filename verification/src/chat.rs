//! The chat line: typing, and what a line says.

use crate::command::{Command, CommandV};
use crate::text::{chars_of, is_space, parse_uint, space, string_of, trim, trim_bounds, uint_value};
use vstd::prelude::*;
use vstd::utf8::encode_utf8;

verus! {

/// A line of chat takes no more characters once it has this many bytes.
pub const CHAT_MAX: usize = 110;

/// Is `c` a control code?
pub open spec fn is_control(c: char) -> bool {
    let n = c as u32;
    n <= 0x1F || 0x7F <= n <= 0x9F
}

/// The line with a character typed.
pub open spec fn typed(buf: Seq<char>, c: char) -> Seq<char> {
    if !is_control(c) && encode_utf8(buf).len() < CHAT_MAX {
        buf.push(c)
    } else {
        buf
    }
}

/// The line with its last character taken back.
pub open spec fn untyped(buf: Seq<char>) -> Seq<char> {
    if buf.len() == 0 {
        buf
    } else {
        buf.drop_last()
    }
}

/// The words of a text, between its white space.
pub open spec fn words(s: Seq<char>) -> Seq<Seq<char>>
    decreases s.len(),
{
    if s.len() == 0 {
        Seq::empty()
    } else {
        let before = words(s.drop_last());
        let c = s.last();
        if is_space(c) {
            before
        } else if s.len() == 1 || is_space(s[s.len() - 2]) {
            before.push(seq![c])
        } else {
            before.drop_last().push(before.last().push(c))
        }
    }
}

/// Does the text begin with the word?
pub open spec fn begins(s: Seq<char>, word: Seq<char>) -> bool {
    s.len() >= word.len() && s.take(word.len() as int) == word
}

/// `/give <player> <amount>` wires credits.
pub open spec fn gift_in(rest: Seq<char>) -> Option<CommandV> {
    let w = words(rest);
    if w.len() != 2 {
        None
    } else {
        match (uint_value(w[0], 10, 255), uint_value(w[1], 10, 0xFFFF_FFFF)) {
            (Some(to), Some(amount)) => Some(CommandV::GiveCredits { to: to as u8, amount: amount as u32 }),
            _ => None,
        }
    }
}

/// `/ally <player>` proposes an alliance.
pub open spec fn pact_in(rest: Seq<char>) -> Option<CommandV> {
    match uint_value(trim(rest), 10, 255) {
        Some(with) => Some(CommandV::Ally { with: with as u8 }),
        None => None,
    }
}

/// What a line says: a command, or words for everybody; a blank line, or a command that cannot
/// be read, says nothing.
pub open spec fn spoken(text: Seq<char>) -> Option<CommandV> {
    let t = trim(text);
    if begins(t, "/give "@) {
        gift_in(t.skip("/give "@.len() as int))
    } else if begins(t, "/ally "@) {
        pact_in(t.skip("/ally "@.len() as int))
    } else if t.len() > 0 {
        Some(CommandV::Chat { text: t })
    } else {
        None
    }
}

// ----------------------------------------------------------------------
// The line
// ----------------------------------------------------------------------

/// Type a character: control codes, and what no longer fits, are dropped.
pub fn type_char(buf: &mut String, c: char)
    ensures
        final(buf)@ == typed(old(buf)@, c),
{
    let n: u32 = c as u32;
    let control: bool = n <= 0x1F || (0x7F <= n && n <= 0x9F);
    if !control && buf.as_str().as_bytes().len() < CHAT_MAX {
        buf.push(c);
    }
}

/// Take the last character back.
pub fn erase_char(buf: &mut String)
    ensures
        final(buf)@ == untyped(old(buf)@),
{
    let v: Vec<char> = chars_of(buf.as_str());
    if v.len() > 0 {
        let s: String = string_of(&v, 0, v.len() - 1);
        proof {
            assert(s@ =~= buf@.drop_last());
        }
        *buf = s;
    }
}

pub open spec fn words_view(v: Seq<Vec<char>>) -> Seq<Seq<char>> {
    Seq::new(v.len(), |i: int| v[i]@)
}

proof fn words_some(s: Seq<char>)
    requires
        s.len() > 0,
        !is_space(s.last()),
    ensures
        words(s).len() > 0,
{
}

/// The words of `v[from..to]`.
fn split_words(v: &Vec<char>, from: usize, to: usize) -> (r: Vec<Vec<char>>)
    requires
        from <= to <= v@.len(),
    ensures
        words_view(r@) == words(v@.subrange(from as int, to as int)),
{
    let ghost s = v@.subrange(from as int, to as int);
    let mut out: Vec<Vec<char>> = Vec::new();
    let mut i: usize = from;
    proof {
        assert(words_view(out@) =~= words(s.take(0)));
    }
    while i < to
        invariant
            from <= i <= to <= v@.len(),
            s == v@.subrange(from as int, to as int),
            words_view(out@) == words(s.take(i - from)),
        decreases to - i,
    {
        let ghost k = i - from;
        let ghost before = out@;
        proof {
            assert(s.take(k + 1).drop_last() =~= s.take(k));
            assert(s.take(k + 1).last() == v@[i as int]);
            assert(k > 0 ==> s.take(k + 1)[k - 1] == v@[i - 1]);
            if k > 0 && !is_space(v@[i - 1]) {
                words_some(s.take(k));
            }
        }
        if !space(v[i]) {
            if i == from || space(v[i - 1]) {
                let mut w: Vec<char> = Vec::new();
                w.push(v[i]);
                out.push(w);
                proof {
                    assert(w@ =~= seq![v@[i as int]]);
                    assert(words_view(out@) =~= words_view(before).push(seq![v@[i as int]]));
                }
            } else {
                let n: usize = out.len();
                proof {
                    assert(words_view(before).len() == n);
                }
                let mut w: Vec<char> = out.remove(n - 1);
                w.push(v[i]);
                out.push(w);
                proof {
                    assert(words_view(before).last() == before[n - 1]@);
                    assert(words_view(out@) =~= words_view(before).drop_last().push(
                        words_view(before).last().push(v@[i as int]),
                    ));
                }
            }
        }
        i = i + 1;
    }
    proof {
        assert(s.take(i - from) =~= s);
    }
    out
}

fn starts(v: &Vec<char>, from: usize, to: usize, word: &str) -> (r: Option<usize>)
    requires
        from <= to <= v@.len(),
    ensures
        r is Some <==> begins(v@.subrange(from as int, to as int), word@),
        r matches Some(k) ==> k == from + word@.len() && k <= to,
{
    let w: Vec<char> = chars_of(word);
    let ghost s = v@.subrange(from as int, to as int);
    if to - from < w.len() {
        return None;
    }
    let mut i: usize = 0;
    while i < w.len()
        invariant
            i <= w@.len() <= to - from,
            from <= to <= v@.len(),
            w@ == word@,
            s == v@.subrange(from as int, to as int),
            forall|k: int| 0 <= k < i ==> s[k] == #[trigger] w@[k],
        decreases w@.len() - i,
    {
        if v[from + i] != w[i] {
            proof {
                assert(s[i as int] != w@[i as int]);
                assert(begins(s, word@) ==> s.take(w@.len() as int)[i as int] == w@[i as int]);
            }
            return None;
        }
        i = i + 1;
    }
    proof {
        assert(s.take(w@.len() as int) =~= word@);
    }
    Some(from + w.len())
}

/// What a line says.
pub fn say(text: &str) -> (r: Option<Command>)
    ensures
        match spoken(text@) {
            Some(c) => r is Some && r->0@ == c,
            None => r is None,
        },
{
    let v: Vec<char> = chars_of(text);
    let (a, b) = trim_bounds(&v);
    let ghost t = trim(text@);
    match starts(&v, a, b, "/give ") {
        Some(k) => {
            let w: Vec<Vec<char>> = split_words(&v, k, b);
            proof {
                assert(v@.subrange(k as int, b as int) =~= t.skip("/give "@.len() as int));
            }
            if w.len() != 2 {
                proof {
                    assert(words_view(w@).len() != 2);
                }
                return None;
            }
            proof {
                assert(words_view(w@)[0] == w@[0]@ && words_view(w@)[1] == w@[1]@);
                assert(w@[0]@.subrange(0, w@[0]@.len() as int) =~= w@[0]@);
                assert(w@[1]@.subrange(0, w@[1]@.len() as int) =~= w@[1]@);
            }
            match (parse_uint(&w[0], 0, w[0].len(), 10, 255), parse_uint(&w[1], 0, w[1].len(), 10, 0xFFFF_FFFF)) {
                (Some(to), Some(amount)) => Some(Command::GiveCredits { to: to as u8, amount: amount as u32 }),
                _ => None,
            }
        },
        None => match starts(&v, a, b, "/ally ") {
            Some(k) => {
                let rest: String = string_of(&v, k, b);
                proof {
                    assert(rest@ =~= t.skip("/ally "@.len() as int));
                }
                let u: Vec<char> = chars_of(rest.as_str());
                let (c, d) = trim_bounds(&u);
                match parse_uint(&u, c, d, 10, 255) {
                    Some(with) => Some(Command::Ally { with: with as u8 }),
                    None => None,
                }
            },
            None => {
                if a < b {
                    Some(Command::Chat { text: string_of(&v, a, b) })
                } else {
                    None
                }
            },
        },
    }
}

// ----------------------------------------------------------------------
// Laws
// ----------------------------------------------------------------------

/// A character takes up to four bytes, so a line never grows beyond its limit by more than
/// three.
pub proof fn lines_stay_short(buf: Seq<char>, c: char)
    requires
        encode_utf8(buf).len() <= CHAT_MAX + 3,
    ensures
        encode_utf8(typed(buf, c)).len() <= CHAT_MAX + 3,
        encode_utf8(untyped(buf)).len() <= CHAT_MAX + 3,
{
    char_bytes(c);
    encoded_in_parts(buf, seq![c]);
    assert(buf.push(c) =~= buf + seq![c]);
    if buf.len() > 0 {
        encoded_in_parts(buf.drop_last(), seq![buf.last()]);
        assert(buf =~= buf.drop_last() + seq![buf.last()]);
    }
}

proof fn encoded_in_parts(a: Seq<char>, b: Seq<char>)
    ensures
        encode_utf8(a + b) == encode_utf8(a) + encode_utf8(b),
    decreases a.len(),
{
    if a.len() == 0 {
        assert(a + b =~= b);
        assert(encode_utf8(a) + encode_utf8(b) =~= encode_utf8(b));
    } else {
        encoded_in_parts(a.drop_first(), b);
        assert((a + b).drop_first() =~= a.drop_first() + b);
        assert(encode_utf8(a + b) =~= encode_utf8(a) + encode_utf8(b));
    }
}

proof fn char_bytes(c: char)
    ensures
        encode_utf8(seq![c]).len() <= 4,
{
    reveal_with_fuel(encode_utf8, 2);
}

/// What does not begin with a slash is said to everybody, as it was typed, without the blanks
/// around it.
pub proof fn plain_words_are_said(text: Seq<char>)
    requires
        trim(text).len() > 0,
        trim(text)[0] != '/',
    ensures
        spoken(text) == Some(CommandV::Chat { text: trim(text) }),
{
    reveal_strlit("/give ");
    reveal_strlit("/ally ");
    let t = trim(text);
    assert(begins(t, "/give "@) ==> t.take(6)[0] == "/give "@[0]);
    assert(begins(t, "/ally "@) ==> t.take(6)[0] == "/ally "@[0]);
}

/// Type a character and take it back: the line is as before, unless the character was dropped.
pub proof fn erasing_undoes_typing(buf: Seq<char>, c: char)
    requires
        !is_control(c),
        encode_utf8(buf).len() < CHAT_MAX,
    ensures
        untyped(typed(buf, c)) == buf,
{
    assert(buf.push(c).drop_last() =~= buf);
}

} // verus!
