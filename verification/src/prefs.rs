//! Persisted settings: lines of `key=value`.

use crate::text::{chars_of, is_space, push_text, string_of, text_of, trim, trim_bounds};
use vstd::prelude::*;

verus! {

// ----------------------------------------------------------------------
// Reading
// ----------------------------------------------------------------------

/// Where the character first stands in a text; its length if it does not.
pub open spec fn place_of(s: Seq<char>, c: char) -> nat
    decreases s.len(),
{
    if s.len() == 0 || s[0] == c {
        0
    } else {
        1 + place_of(s.drop_first(), c)
    }
}

/// A line without the carriage return at its end.
pub open spec fn uncarried(s: Seq<char>) -> Seq<char> {
    if s.len() > 0 && s.last() == '\r' {
        s.drop_last()
    } else {
        s
    }
}

/// The lines of a text. A line end at the text's end starts no further line.
pub open spec fn lines_of(s: Seq<char>) -> Seq<Seq<char>>
    decreases s.len(),
{
    if s.len() == 0 {
        Seq::empty()
    } else {
        let k = place_of(s, '\n') as int;
        if k >= s.len() {
            seq![s]
        } else {
            seq![uncarried(s.take(k))] + lines_of(s.skip(k + 1))
        }
    }
}

/// The key and the value of a line, without the blanks around them.
pub open spec fn pair_of(l: Seq<char>) -> Option<(Seq<char>, Seq<char>)> {
    let k = place_of(l, '=') as int;
    if k >= l.len() {
        None
    } else {
        Some((trim(l.take(k)), trim(l.skip(k + 1))))
    }
}

/// The keys and values of some lines; a line without an equals sign says nothing.
pub open spec fn pairs_of(ls: Seq<Seq<char>>) -> Seq<(Seq<char>, Seq<char>)>
    decreases ls.len(),
{
    if ls.len() == 0 {
        Seq::empty()
    } else {
        match pair_of(ls[0]) {
            Some(p) => seq![p] + pairs_of(ls.drop_first()),
            None => pairs_of(ls.drop_first()),
        }
    }
}

pub open spec fn pairs_view(v: Seq<(String, String)>) -> Seq<(Seq<char>, Seq<char>)> {
    Seq::new(v.len(), |i: int| (v[i].0@, v[i].1@))
}

fn find(v: &Vec<char>, from: usize, to: usize, c: char) -> (r: usize)
    requires
        from <= to <= v@.len(),
    ensures
        r == from + place_of(v@.subrange(from as int, to as int), c),
        r <= to,
{
    let ghost s = v@.subrange(from as int, to as int);
    let mut i: usize = from;
    proof {
        assert(s.skip(0) =~= s);
    }
    while i < to && v[i] != c
        invariant
            from <= i <= to <= v@.len(),
            s == v@.subrange(from as int, to as int),
            (i - from) + place_of(s.skip(i - from), c) == place_of(s, c),
        decreases to - i,
    {
        proof {
            assert(s.skip(i - from).drop_first() =~= s.skip(i + 1 - from));
            assert(s.skip(i - from)[0] == v@[i as int]);
        }
        i = i + 1;
    }
    proof {
        if i < to {
            assert(s.skip(i - from)[0] == v@[i as int]);
        }
    }
    i
}

fn trimmed(v: &Vec<char>, from: usize, to: usize) -> (r: String)
    requires
        from <= to <= v@.len(),
    ensures
        r@ == trim(v@.subrange(from as int, to as int)),
{
    let s: String = string_of(v, from, to);
    let u: Vec<char> = chars_of(s.as_str());
    let (a, b) = trim_bounds(&u);
    string_of(&u, a, b)
}

/// The keys and values of a settings text.
pub fn read_pairs(text: &str) -> (r: Vec<(String, String)>)
    ensures
        pairs_view(r@) == pairs_of(lines_of(text@)),
{
    let v: Vec<char> = chars_of(text);
    let n: usize = v.len();
    let ghost all = pairs_of(lines_of(text@));
    let mut out: Vec<(String, String)> = Vec::new();
    let mut at: usize = 0;
    proof {
        assert(v@.skip(0) =~= v@);
        assert(pairs_view(out@) + all =~= all);
    }
    while at < n
        invariant
            at <= n == v@.len(),
            pairs_view(out@) + pairs_of(lines_of(v@.skip(at as int))) == all,
        decreases n - at,
    {
        let ghost s = v@.skip(at as int);
        let ghost before = out@;
        let end: usize = find(&v, at, n, '\n');
        proof {
            assert(v@.subrange(at as int, n as int) =~= s);
        }
        let mut stop: usize = end;
        if end < n && end > at && v[end - 1] == '\r' {
            stop = end - 1;
        }
        let ghost l = v@.subrange(at as int, stop as int);
        proof {
            if end < n {
                assert(s.take(end - at) =~= v@.subrange(at as int, end as int));
                assert(l =~= uncarried(s.take(end - at)));
                assert(s.skip(end - at + 1) =~= v@.skip(end + 1));
                assert(lines_of(s).drop_first() =~= lines_of(v@.skip(end + 1)));
                assert(lines_of(s)[0] == l);
            } else {
                assert(l =~= s);
                assert(lines_of(s).drop_first() =~= Seq::<Seq<char>>::empty());
            }
        }
        let eq: usize = find(&v, at, stop, '=');
        let ghost rest = pairs_of(lines_of(s).drop_first());
        if eq < stop {
            let key: String = trimmed(&v, at, eq);
            let val: String = trimmed(&v, eq + 1, stop);
            let ghost p = (key@, val@);
            proof {
                assert(l.take(eq - at) =~= v@.subrange(at as int, eq as int));
                assert(l.skip(eq - at + 1) =~= v@.subrange(eq + 1, stop as int));
            }
            out.push((key, val));
            proof {
                assert(pairs_view(out@) =~= pairs_view(before).push(p));
                assert(pairs_view(out@) + rest =~= pairs_view(before) + (seq![p] + rest));
            }
        }
        at = if end < n { end + 1 } else { n };
        proof {
            if end >= n {
                assert(v@.skip(n as int) =~= Seq::<char>::empty());
                assert(pairs_of(lines_of(v@.skip(n as int))) =~= rest);
            }
        }
    }
    proof {
        assert(v@.skip(at as int) =~= Seq::<char>::empty());
        assert(pairs_view(out@) + pairs_of(lines_of(v@.skip(at as int))) =~= pairs_view(out@));
    }
    out
}

// ----------------------------------------------------------------------
// Writing
// ----------------------------------------------------------------------

/// The settings as lines.
pub open spec fn settings_lines(master: Seq<char>, music: Seq<char>, sfx: Seq<char>, edge_scroll: bool) -> Seq<char> {
    "master="@ + master + "\nmusic="@ + music + "\nsfx="@ + sfx + "\nedge_scroll="@ + (if edge_scroll {
        "1"@
    } else {
        "0"@
    }) + "\n"@
}

/// The settings text: the levels, written out, and whether the edge scrolls.
pub fn settings_text(master: &str, music: &str, sfx: &str, edge_scroll: bool) -> (r: String)
    ensures
        r@ == settings_lines(master@, music@, sfx@, edge_scroll),
{
    let mut s: String = text_of("master=");
    push_text(&mut s, master);
    push_text(&mut s, "\nmusic=");
    push_text(&mut s, music);
    push_text(&mut s, "\nsfx=");
    push_text(&mut s, sfx);
    push_text(&mut s, "\nedge_scroll=");
    push_text(&mut s, if edge_scroll { "1" } else { "0" });
    push_text(&mut s, "\n");
    s
}

// ----------------------------------------------------------------------
// Laws
// ----------------------------------------------------------------------

/// A text of one word: no blanks, no line ends.
pub open spec fn one_word(s: Seq<char>) -> bool {
    forall|i: int| 0 <= i < s.len() ==> !is_space(#[trigger] s[i])
}

proof fn word_stands(s: Seq<char>)
    requires
        one_word(s),
    ensures
        trim(s) == s,
{
    if s.len() > 0 {
        assert(!is_space(s[0]));
        assert(!is_space(s.last()));
    }
}

proof fn found_behind(a: Seq<char>, c: char, b: Seq<char>)
    requires
        forall|i: int| 0 <= i < a.len() ==> #[trigger] a[i] != c,
    ensures
        place_of(a + seq![c] + b, c) == a.len(),
    decreases a.len(),
{
    let s = a + seq![c] + b;
    if a.len() > 0 {
        let t = a.drop_first();
        assert forall|i: int| 0 <= i < t.len() implies #[trigger] t[i] != c by {
            assert(a[i + 1] != c);
        }
        found_behind(t, c, b);
        assert(s.drop_first() =~= t + seq![c] + b);
        assert(a[0] != c);
    }
}

/// One line of a key and a value, and what stands behind it.
proof fn line_reads(key: Seq<char>, val: Seq<char>, rest: Seq<char>)
    requires
        one_word(key),
        one_word(val),
        forall|i: int| 0 <= i < key.len() ==> #[trigger] key[i] != '=',
    ensures
        pairs_of(lines_of(key + seq!['='] + val + seq!['\n'] + rest)) == seq![(key, val)] + pairs_of(lines_of(rest)),
{
    let l = key + seq!['='] + val;
    let s = l + seq!['\n'] + rest;
    assert forall|i: int| 0 <= i < l.len() implies #[trigger] l[i] != '\n' by {
        if i < key.len() {
            assert(!is_space(key[i]));
        } else if i > key.len() {
            assert(!is_space(val[i - key.len() - 1]));
            assert(l[i] == val[i - key.len() - 1]);
        }
    }
    found_behind(l, '\n', rest);
    assert(s.take(l.len() as int) =~= l);
    assert(s.skip(l.len() as int + 1) =~= rest);
    assert(uncarried(l) == l) by {
        let e = l.last();
        if val.len() > 0 {
            assert(e == val.last());
            assert(!is_space(val[val.len() - 1]));
        } else {
            assert(e == '=');
        }
    }
    found_behind(key, '=', val);
    assert(l.take(key.len() as int) =~= key);
    assert(l.skip(key.len() as int + 1) =~= val);
    word_stands(key);
    word_stands(val);
    assert(lines_of(s)[0] == l);
    assert(lines_of(s).drop_first() =~= lines_of(rest));
}

/// Settings that are written down are read back.
pub proof fn settings_read_back(master: Seq<char>, music: Seq<char>, sfx: Seq<char>, edge_scroll: bool)
    requires
        one_word(master),
        one_word(music),
        one_word(sfx),
    ensures
        pairs_of(lines_of(settings_lines(master, music, sfx, edge_scroll))) == seq![
            ("master"@, master),
            ("music"@, music),
            ("sfx"@, sfx),
            (
                "edge_scroll"@,
                if edge_scroll {
                    "1"@
                } else {
                    "0"@
                },
            ),
        ],
{
    let e = if edge_scroll {
        "1"@
    } else {
        "0"@
    };
    keys_are_words();
    let r4 = Seq::<char>::empty();
    let r3 = "edge_scroll"@ + seq!['='] + e + seq!['\n'] + r4;
    let r2 = "sfx"@ + seq!['='] + sfx + seq!['\n'] + r3;
    let r1 = "music"@ + seq!['='] + music + seq!['\n'] + r2;
    let r0 = "master"@ + seq!['='] + master + seq!['\n'] + r1;
    line_reads("edge_scroll"@, e, r4);
    line_reads("sfx"@, sfx, r3);
    line_reads("music"@, music, r2);
    line_reads("master"@, master, r1);
    lines_line_up(master, music, sfx, edge_scroll);
    let p3 = seq![("edge_scroll"@, e)] + pairs_of(lines_of(r4));
    assert(p3 =~= seq![("edge_scroll"@, e)]);
    assert(pairs_of(lines_of(r0)) =~= seq![("master"@, master), ("music"@, music), ("sfx"@, sfx), ("edge_scroll"@, e)]);
}

proof fn keys_are_words()
    ensures
        one_word("master"@) && one_word("music"@) && one_word("sfx"@) && one_word("edge_scroll"@) && one_word("1"@)
            && one_word("0"@),
        forall|i: int| 0 <= i < "master"@.len() ==> #[trigger] "master"@[i] != '=',
        forall|i: int| 0 <= i < "music"@.len() ==> #[trigger] "music"@[i] != '=',
        forall|i: int| 0 <= i < "sfx"@.len() ==> #[trigger] "sfx"@[i] != '=',
        forall|i: int| 0 <= i < "edge_scroll"@.len() ==> #[trigger] "edge_scroll"@[i] != '=',
{
    reveal_strlit("master");
    reveal_strlit("music");
    reveal_strlit("sfx");
    reveal_strlit("edge_scroll");
    reveal_strlit("1");
    reveal_strlit("0");
}

proof fn lines_line_up(master: Seq<char>, music: Seq<char>, sfx: Seq<char>, edge_scroll: bool)
    ensures
        ({
            let e = if edge_scroll {
                "1"@
            } else {
                "0"@
            };
            let r3 = "edge_scroll"@ + seq!['='] + e + seq!['\n'] + Seq::<char>::empty();
            let r2 = "sfx"@ + seq!['='] + sfx + seq!['\n'] + r3;
            let r1 = "music"@ + seq!['='] + music + seq!['\n'] + r2;
            settings_lines(master, music, sfx, edge_scroll) == "master"@ + seq!['='] + master + seq!['\n'] + r1
        }),
{
    reveal_strlit("master=");
    reveal_strlit("\nmusic=");
    reveal_strlit("\nsfx=");
    reveal_strlit("\nedge_scroll=");
    reveal_strlit("\n");
    reveal_strlit("master");
    reveal_strlit("music");
    reveal_strlit("sfx");
    reveal_strlit("edge_scroll");
    assert("master="@ =~= "master"@ + seq!['=']);
    assert("\nmusic="@ =~= seq!['\n'] + ("music"@ + seq!['=']));
    assert("\nsfx="@ =~= seq!['\n'] + ("sfx"@ + seq!['=']));
    assert("\nedge_scroll="@ =~= seq!['\n'] + ("edge_scroll"@ + seq!['=']));
    assert("\n"@ =~= seq!['\n']);
    let e = if edge_scroll {
        "1"@
    } else {
        "0"@
    };
    let r3 = "edge_scroll"@ + seq!['='] + e + seq!['\n'] + Seq::<char>::empty();
    let r2 = "sfx"@ + seq!['='] + sfx + seq!['\n'] + r3;
    let r1 = "music"@ + seq!['='] + music + seq!['\n'] + r2;
    let a = "master="@ + master;
    let b = a + "\nmusic="@ + music;
    let c = b + "\nsfx="@ + sfx;
    let tail = "\nedge_scroll="@ + e + "\n"@;
    assert(tail =~= seq!['\n'] + r3);
    assert(settings_lines(master, music, sfx, edge_scroll) =~= c + tail);
    assert(c + tail =~= b + (seq!['\n'] + r2));
    assert(b + (seq!['\n'] + r2) =~= a + (seq!['\n'] + r1));
    assert(a + (seq!['\n'] + r1) =~= "master"@ + seq!['='] + master + seq!['\n'] + r1);
}

} // verus!
