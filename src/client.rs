use vstd::prelude::*;
use crate::command::{Command, InfoList, Ping};
use crate::text::{decimal, decimal_spec};
use crate::resolver::{
    find_id, keyed_put, lemma_find_after_put, resolve_spec, MessageResolver, Outcome, OutcomeV,
    ResolverV,
};
use crate::bytes::{lemma_pow10_20, pow10};
use crate::encode::{
    encode_info_list, item_fields, lemma_encode_utf8_len, lemma_expected_at, lemma_info_list_at,
    lemma_maps_of_len, lemma_str_round_trip, maps_of, str_bytes,
};
use crate::decode::{parse_expected, parse_str};
use crate::error::Error;
use crate::message::pong_name;
use crate::object::{str_text, tag_spec, Kind, Value};
use crate::text::lemma_decimal_shape;
use vstd::utf8::encode_utf8;

verus! {

/// The state of one session with the relay: the next request id and the promises that
/// wait for replies. The session does no I/O: each request hands back the command to
/// send, and each frame that arrives is handed in.
pub struct Client<P> {
    next_id: u64,
    resolver: MessageResolver<P>,
}

/// The model of a [`Client`].
pub struct ClientV<P> {
    pub next_id: u64,
    pub resolver: ResolverV<P>,
}

impl<P> View for Client<P> {
    type V = ClientV<P>;

    closed spec fn view(&self) -> ClientV<P> {
        ClientV { next_id: self.next_id, resolver: self.resolver@ }
    }
}

impl<P> Client<P> {
    /// A session with no request made yet.
    pub fn new() -> (r: Self)
        ensures
            r@.next_id == 0,
            r@.resolver.pongs.len() == 0,
            r@.resolver.keyed.len() == 0,
    {
        Client { next_id: 0, resolver: MessageResolver::new() }
    }

    /// The id that the next keyed request will carry.
    pub fn next_id(&self) -> (r: u64)
        ensures
            r == self@.next_id,
    {
        self.next_id
    }

    fn new_id(&mut self) -> (r: String)
        requires
            old(self)@.next_id < u64::MAX,
        ensures
            r@ == decimal_spec(old(self)@.next_id as nat),
            final(self)@.next_id == old(self)@.next_id + 1,
            final(self)@.resolver == old(self)@.resolver,
    {
        let id = self.next_id;
        self.next_id = id + 1;
        decimal(id)
    }

    /// Asks for a pong with `text`: `promise` waits for the first pong that no earlier
    /// ping takes.
    pub fn ping(&mut self, text: String, promise: P) -> (r: Command)
        ensures
            r matches Command::Ping(Ping(t)) && t@ == text@,
            final(self)@.resolver.pongs == old(self)@.resolver.pongs.push(promise),
            final(self)@.resolver.keyed == old(self)@.resolver.keyed,
            final(self)@.next_id == old(self)@.next_id,
    {
        self.resolver.register_pong(promise);
        Command::Ping(Ping(text))
    }

    /// Asks for the info list `name` under a fresh id, the decimal form of a counter
    /// that goes up by one with each such request; `promise` waits for the reply under
    /// that id.
    pub fn infolist(&mut self, name: String, promise: P) -> (r: Command)
        requires
            old(self)@.next_id < u64::MAX,
        ensures
            r matches Command::InfoList(InfoList(id, n)) && id@ == decimal_spec(
                old(self)@.next_id as nat,
            ) && n@ == name@,
            final(self)@.next_id == old(self)@.next_id + 1,
            final(self)@.resolver.pongs == old(self)@.resolver.pongs,
            final(self)@.resolver.keyed == keyed_put(
                old(self)@.resolver.keyed,
                decimal_spec(old(self)@.next_id as nat),
                promise,
            ),
    {
        let id = self.new_id();
        let key = id.clone();
        let _displaced = self.resolver.register_promise(key, promise);
        Command::InfoList(InfoList(id, name))
    }

    /// Ends the session: every promise still waiting is handed back, pong promises
    /// first in the order of their registration, then the keyed ones, and none is left.
    pub fn disconnect(&mut self) -> (r: Vec<P>)
        ensures
            r@ == old(self)@.resolver.pongs + old(self)@.resolver.keyed.map_values(
                |e: (Seq<char>, P)| e.1,
            ),
            final(self)@.resolver.pongs.len() == 0,
            final(self)@.resolver.keyed.len() == 0,
            final(self)@.next_id == old(self)@.next_id,
    {
        self.resolver.take_all()
    }

    /// Takes the payload of one frame and says which promise it resolves.
    pub fn receive(&mut self, msg: &[u8]) -> (r: Outcome<P>)
        ensures
            (final(self)@.resolver, r@) == resolve_spec(old(self)@.resolver, msg@),
            final(self)@.next_id == old(self)@.next_id,
    {
        self.resolver.resolve(msg)
    }
}

/// A request for an info list is answered by the reply under the id it was given: after
/// `infolist` registers promise `p` under the session's next id, a message headed by that
/// id and carrying an encoded info list settles `p` with that info list, one mapping per
/// encoded item, and takes the registration out; the pong queue is left alone.
#[verifier::rlimit(100)]
pub proof fn lemma_infolist_reply<P>(
    c: ClientV<P>,
    p: P,
    name: Option<Seq<char>>,
    items: Seq<Seq<(Value, Value)>>,
    rest: Seq<u8>,
)
    requires
        name matches Some(t) ==> encode_utf8(t).len() < 0x8000_0000,
        items.len() < 0x1_0000_0000,
        forall|i: int| 0 <= i < items.len() ==> item_fields(#[trigger] items[i]),
    ensures
        ({
            let id = decimal_spec(c.next_id as nat);
            let k2 = keyed_put(c.resolver.keyed, id, p);
            let msg = str_bytes(Some(id)) + tag_spec(Kind::InfoList) + encode_info_list(
                name,
                items,
            ) + rest;
            let (after, o) = resolve_spec(ResolverV { pongs: c.resolver.pongs, keyed: k2 }, msg);
            &&& o == OutcomeV::Fulfilled(p, Value::InfoList(name, maps_of(items)))
            &&& maps_of(items).len() == items.len()
            &&& after.pongs == c.resolver.pongs
            &&& after.keyed == k2.remove(find_id(k2, id))
        }),
{
    let id = decimal_spec(c.next_id as nat);
    lemma_pow10_20();
    lemma_decimal_shape(c.next_id as nat, 20);
    lemma_encode_utf8_len(id);
    let head = str_bytes(Some(id));
    let tag = tag_spec(Kind::InfoList);
    let body = encode_info_list(name, items);
    let msg = head + tag + body + rest;
    lemma_str_round_trip(Some(id), Seq::empty(), tag + body + rest);
    assert(Seq::<u8>::empty() + head + (tag + body + rest) =~= msg);
    reveal_strlit("_pong");
    assert(pong_name()[0] == '_');
    assert(id[0] != pong_name()[0]);
    assert(id != pong_name());
    let h = head.len() as int;
    assert(parse_str(msg, 0) == Ok::<_, Error>((Some(id), h)));
    assert(str_text(Some(id)) == id);
    lemma_find_after_put(c.resolver.keyed, id, p);
    let k2 = keyed_put(c.resolver.keyed, id, p);
    assert(find_id(k2, id) >= 0 && k2[find_id(k2, id)].1 == p);
    assert(msg.subrange(h, h + 3) =~= tag);
    lemma_expected_at(Kind::InfoList, msg, h);
    assert(msg =~= (head + tag) + body + rest);
    lemma_info_list_at(name, items, head + tag, rest);
    assert(parse_expected(Kind::InfoList, msg, h) matches Ok((v, _)) && v == Value::InfoList(
        name,
        maps_of(items),
    ));
    lemma_maps_of_len(items);
}

} // verus!
