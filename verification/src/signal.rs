//! Signaling payloads: the encrypted WebRTC handshake.
//!
//! Offers, answers and ICE candidates travel ECDH-encrypted to the recipient's key, tagged
//! with it so that relays route them.

use crate::crypto::{
    aead_opened, aead_sealed, hex_bytes, hex_encode, hex_reads_back, opened_of, shared_of, unhex, Identity, PubKey, AEAD_MAX,
};
use crate::json::{tags_view, texts};
use crate::nostr::{event_made, event_valid, tag_value, Event, EventV, KIND_SIGNAL};
use crate::text::{chars_of, hex, push_text, str_eq, string_from_utf8, string_of, text_of};
use vstd::prelude::*;
use vstd::utf8::{decode_utf8, encode_utf8, valid_utf8};

verus! {

#[derive(Clone, Debug, PartialEq)]
pub enum Signal {
    Offer(String),
    Answer(String),
    Ice(String),
}

/// A signal by its contents.
#[verifier::ext_equal]
pub enum SignalV {
    Offer(Seq<char>),
    Answer(Seq<char>),
    Ice(Seq<char>),
}

impl View for Signal {
    type V = SignalV;

    open spec fn view(&self) -> SignalV {
        match *self {
            Signal::Offer(s) => SignalV::Offer(s@),
            Signal::Answer(s) => SignalV::Answer(s@),
            Signal::Ice(s) => SignalV::Ice(s@),
        }
    }
}

pub open spec fn signal_tag(s: SignalV) -> Seq<char> {
    match s {
        SignalV::Offer(_) => "offer"@,
        SignalV::Answer(_) => "answer"@,
        SignalV::Ice(_) => "ice"@,
    }
}

pub open spec fn signal_body(s: SignalV) -> Seq<char> {
    match s {
        SignalV::Offer(b) => b,
        SignalV::Answer(b) => b,
        SignalV::Ice(b) => b,
    }
}

/// The plaintext of a signal: `<kind>\n<body>`.
pub open spec fn signal_text(s: SignalV) -> Seq<char> {
    signal_tag(s) + seq!['\n'] + signal_body(s)
}

/// Where the first newline of a text stands; its length if there is none.
pub open spec fn newline_at(s: Seq<char>) -> nat
    decreases s.len(),
{
    if s.len() == 0 || s[0] == '\n' {
        0
    } else {
        1 + newline_at(s.drop_first())
    }
}

/// The signal that a plaintext stands for.
pub open spec fn signal_in_text(t: Seq<char>) -> Option<SignalV> {
    let k = newline_at(t) as int;
    if k >= t.len() {
        None
    } else {
        let tag = t.take(k);
        let body = t.skip(k + 1);
        if tag == "offer"@ {
            Some(SignalV::Offer(body))
        } else if tag == "answer"@ {
            Some(SignalV::Answer(body))
        } else if tag == "ice"@ {
            Some(SignalV::Ice(body))
        } else {
            None
        }
    }
}

/// The signal that the holder of `secret` reads in an event.
pub open spec fn signal_in(e: EventV, secret: Seq<u8>) -> Option<SignalV> {
    if e.kind != KIND_SIGNAL {
        None
    } else {
        match unhex(e.content) {
            Some(blob) => if blob.len() > AEAD_MAX + 28 {
                None
            } else {
                match opened_of(secret, e.pubkey, blob) {
                    Some(plain) => if valid_utf8(plain) {
                        signal_in_text(decode_utf8(plain))
                    } else {
                        None
                    },
                    None => None,
                }
            },
            None => None,
        }
    }
}

/// The bytes of a hexadecimal text.
pub fn hex_to_bytes(s: &str) -> (r: Option<Vec<u8>>)
    ensures
        r is Some <==> unhex(s@) is Some,
        r matches Some(b) ==> unhex(s@) == Some(b@),
{
    let v: Vec<char> = chars_of(s);
    proof {
        assert(v@.subrange(0, v@.len() as int) =~= s@);
    }
    hex_bytes(&v, 0, v.len())
}

fn read_signal(text: &str) -> (r: Option<Signal>)
    ensures
        match signal_in_text(text@) {
            Some(s) => r is Some && r->0@ == s,
            None => r is None,
        },
{
    let v: Vec<char> = chars_of(text);
    let mut k: usize = 0;
    proof {
        assert(v@.skip(0) =~= v@);
    }
    while k < v.len() && v[k] != '\n'
        invariant
            k <= v@.len(),
            k + newline_at(v@.skip(k as int)) == newline_at(v@),
        decreases v@.len() - k,
    {
        proof {
            assert(v@.skip(k as int).drop_first() =~= v@.skip(k + 1));
        }
        k = k + 1;
    }
    if k >= v.len() {
        return None;
    }
    let tag: String = string_of(&v, 0, k);
    let body: String = string_of(&v, k + 1, v.len());
    proof {
        assert(tag@ =~= text@.take(k as int));
        assert(body@ =~= text@.skip(k + 1));
    }
    if str_eq(tag.as_str(), "offer") {
        Some(Signal::Offer(body))
    } else if str_eq(tag.as_str(), "answer") {
        Some(Signal::Answer(body))
    } else if str_eq(tag.as_str(), "ice") {
        Some(Signal::Ice(body))
    } else {
        None
    }
}

/// The tags of a signal's event: the recipient.
pub open spec fn signal_tags(to: Seq<u8>) -> Seq<Seq<Seq<char>>> {
    seq![seq!["p"@, hex(to)]]
}

/// `r` is an event with the signal, encrypted under the nonce to the holder of `to`.
pub open spec fn signal_made(
    secret: Seq<u8>,
    public: Seq<u8>,
    to: Seq<u8>,
    created_at: u64,
    s: SignalV,
    nonce: Seq<u8>,
    r: Option<Event>,
) -> bool {
    let ct = aead_sealed(shared_of(secret, to)->0, nonce, encode_utf8(signal_text(s)));
    event_made(secret, public, created_at, KIND_SIGNAL, signal_tags(to), hex(nonce + ct), r)
}

impl Signal {
    fn tag(&self) -> (r: &'static str)
        ensures
            r@ == signal_tag(self@),
    {
        match self {
            Signal::Offer(_) => "offer",
            Signal::Answer(_) => "answer",
            Signal::Ice(_) => "ice",
        }
    }

    fn body(&self) -> (r: &str)
        ensures
            r@ == signal_body(self@),
    {
        match self {
            Signal::Offer(s) => s.as_str(),
            Signal::Answer(s) => s.as_str(),
            Signal::Ice(s) => s.as_str(),
        }
    }

    /// Can one message carry the signal?
    pub fn fits(&self) -> (r: bool)
        ensures
            r == (encode_utf8(signal_text(self@)).len() <= AEAD_MAX),
    {
        let mut plain = String::new();
        push_text(&mut plain, self.tag());
        plain.push('\n');
        push_text(&mut plain, self.body());
        proof {
            assert(plain@ =~= signal_text(self@));
        }
        plain.as_str().as_bytes().len() as u64 <= AEAD_MAX
    }

    /// Encrypt this signal to `to` and wrap it in an event tagged `["p",<to-hex>]` so the relay
    /// routes it to the recipient, who reads the signal in it. Nothing where `to` is no key,
    /// or where the curve library refuses to sign.
    pub fn to_event(&self, id: &Identity, to: &PubKey, created_at: u64) -> (r: Option<Event>)
        requires
            encode_utf8(signal_text(self@)).len() <= AEAD_MAX,
        ensures
            shared_of(id.secret(), to@) is None ==> r is None,
            r matches Some(ev) ==> ev@.kind == KIND_SIGNAL && ev@.pubkey == id.public() && ev@.tags == signal_tags(to@)
                && ev@.created_at == created_at,
            shared_of(id.secret(), to@) is Some ==> exists|nonce: Seq<u8>| #[trigger]
                signal_made(id.secret(), id.public(), to@, created_at, self@, nonce, r),
            r matches Some(ev) ==> id.wf() ==> event_valid(ev@),
            r matches Some(ev) ==> forall|them: Identity| #[trigger]
                them.wf() && id.wf() && them.public() == to@ ==> signal_in(ev@, them.secret()) == Some(self@),
    {
        // plaintext: "<kind>\n<body>"
        let mut plain = String::new();
        push_text(&mut plain, self.tag());
        plain.push('\n');
        push_text(&mut plain, self.body());
        proof {
            assert(plain@ =~= signal_text(self@));
        }
        let blob: Vec<u8> = match id.encrypt_to(to, plain.as_str().as_bytes()) {
            Some(blob) => blob,
            None => {
                return None;
            },
        };
        let content: String = hex_encode(blob.as_slice());
        let mut row: Vec<String> = Vec::new();
        row.push(text_of("p"));
        row.push(hex_encode(to.as_slice()));
        let mut tags: Vec<Vec<String>> = Vec::new();
        tags.push(row);
        proof {
            assert(texts(row@) =~= seq!["p"@, hex(to@)]);
            assert(tags_view(tags@) =~= signal_tags(to@));
            hex_reads_back(blob@);
            vstd::utf8::encode_utf8_valid_utf8(plain@);
            vstd::utf8::encode_utf8_decode_utf8(plain@);
            signal_reads_back(self@);
            assert(blob@ =~= blob@.take(12) + blob@.skip(12));
        }
        let r: Option<Event> = Event::create(id, created_at, KIND_SIGNAL, tags, content);
        proof {
            assert(signal_made(id.secret(), id.public(), to@, created_at, self@, blob@.take(12), r));
        }
        r
    }

    /// Decrypt a signal event addressed to us, from `ev.pubkey`.
    pub fn from_event(ev: &Event, me: &Identity) -> (r: Option<(PubKey, Signal)>)
        ensures
            match signal_in(ev@, me.secret()) {
                Some(s) => r is Some && (r->0).0@ == ev@.pubkey && (r->0).1@ == s,
                None => r is None,
            },
    {
        if ev.kind != KIND_SIGNAL {
            return None;
        }
        let blob: Vec<u8> = hex_to_bytes(ev.content.as_str())?;
        if blob.len() as u64 > AEAD_MAX + 28 {
            return None;
        }
        let plain: Vec<u8> = me.decrypt_from(&ev.pubkey, blob.as_slice())?;
        let text: String = string_from_utf8(plain)?;
        match read_signal(text.as_str()) {
            Some(sig) => Some((ev.pubkey, sig)),
            None => None,
        }
    }
}

// ----------------------------------------------------------------------
// Laws
// ----------------------------------------------------------------------

proof fn newline_found(a: Seq<char>, b: Seq<char>)
    requires
        forall|i: int| 0 <= i < a.len() ==> #[trigger] a[i] != '\n',
    ensures
        newline_at(a + seq!['\n'] + b) == a.len(),
    decreases a.len(),
{
    let t = a + seq!['\n'] + b;
    if a.len() > 0 {
        let rest = a.drop_first();
        assert forall|i: int| 0 <= i < rest.len() implies #[trigger] rest[i] != '\n' by {
            assert(a[i + 1] != '\n');
        }
        newline_found(rest, b);
        assert(t.drop_first() =~= rest + seq!['\n'] + b);
        assert(a[0] != '\n');
    }
}

/// A signal survives the trip through its plaintext.
pub proof fn signal_reads_back(s: SignalV)
    ensures
        signal_in_text(signal_text(s)) == Some(s),
{
    reveal_strlit("offer");
    reveal_strlit("answer");
    reveal_strlit("ice");
    let tag = signal_tag(s);
    let body = signal_body(s);
    newline_found(tag, body);
    assert(signal_text(s).take(tag.len() as int) =~= tag);
    assert(signal_text(s).skip(tag.len() as int + 1) =~= body);
    assert("offer"@.len() == 5 && "answer"@.len() == 6 && "ice"@.len() == 3);
}

/// A sealed signal is for its recipient: who opens the cipher text reads the signal, the event
/// names them in its `p` tag, under another kind it is no signal, and for whom the cipher does
/// not open it there is nothing to read. (That it opens for nobody but the two ends is the
/// cipher's promise.)
pub proof fn signals_are_for_their_recipient(
    e: EventV,
    s: SignalV,
    to: Seq<u8>,
    nonce: Seq<u8>,
    ct: Seq<u8>,
    reader: Seq<u8>,
    other: Seq<u8>,
    kind: u32,
)
    requires
        e.kind == KIND_SIGNAL,
        e.tags == signal_tags(to),
        e.content == hex(nonce + ct),
        nonce.len() == 12,
        nonce.len() + ct.len() <= AEAD_MAX + 28,
        shared_of(reader, e.pubkey) matches Some(key) && aead_opened(key, nonce, ct) == Some(encode_utf8(signal_text(s))),
    ensures
        signal_in(e, reader) == Some(s),
        tag_value(e.tags, "p"@) == Some(hex(to)),
        kind != KIND_SIGNAL ==> signal_in(EventV { kind, ..e }, reader) is None,
        (shared_of(other, e.pubkey) matches Some(key) ==> aead_opened(key, nonce, ct) is None) ==> signal_in(e, other) is None,
{
    let blob = nonce + ct;
    hex_reads_back(blob);
    assert(blob.take(12) =~= nonce);
    assert(blob.skip(12) =~= ct);
    vstd::utf8::encode_utf8_valid_utf8(signal_text(s));
    vstd::utf8::encode_utf8_decode_utf8(signal_text(s));
    signal_reads_back(s);
    assert(signal_tags(to)[0] == seq!["p"@, hex(to)]);
}

} // verus!
