use vstd::prelude::*;
use std::collections::VecDeque;
use crate::decode::{parse_expected, parse_str};
use crate::error::Error;
use crate::message::{pong_name, same_text, Id, Message, Pong};
use crate::object::{str_text, InfoList, Kind, Str, Value};

verus! {

/// What resolving one message comes to.
pub enum Outcome<P> {
    /// The promise is to be fulfilled with the message.
    Fulfilled(P, Message),
    /// The promise was matched, but its reply did not decode.
    Failed(P, Error),
    /// No promise was matched.
    Rejected(Error),
}

/// The model of an [`Outcome`], with the message as its value.
pub enum OutcomeV<P> {
    Fulfilled(P, Value),
    Failed(P, Error),
    Rejected(Error),
}

impl<P> View for Outcome<P> {
    type V = OutcomeV<P>;

    open spec fn view(&self) -> OutcomeV<P> {
        match self {
            Outcome::Fulfilled(p, m) => OutcomeV::Fulfilled(*p, m@),
            Outcome::Failed(p, e) => OutcomeV::Failed(*p, *e),
            Outcome::Rejected(e) => OutcomeV::Rejected(*e),
        }
    }
}

/// The promises that wait for replies: pong replies by order of registration, the
/// others by request id.
pub struct MessageResolver<P> {
    pongs: VecDeque<P>,
    keyed: Vec<(String, P)>,
}

/// The index of the registration under `id`, or -1.
pub open spec fn find_id<P>(keyed: Seq<(Seq<char>, P)>, id: Seq<char>) -> int
    decreases keyed.len(),
{
    if keyed.len() == 0 {
        -1
    } else if keyed.last().0 == id {
        keyed.len() - 1
    } else {
        find_id(keyed.drop_last(), id)
    }
}

/// The registry with `p` under `id`, replacing an earlier registration under `id`.
pub open spec fn keyed_put<P>(keyed: Seq<(Seq<char>, P)>, id: Seq<char>, p: P) -> Seq<
    (Seq<char>, P),
> {
    let i = find_id(keyed, id);
    if i >= 0 {
        keyed.update(i, (id, p))
    } else {
        keyed.push((id, p))
    }
}

/// The model of a resolver: the pong queue, oldest first, and the keyed registrations.
pub struct ResolverV<P> {
    pub pongs: Seq<P>,
    pub keyed: Seq<(Seq<char>, P)>,
}

/// The state after a message `msg` and what becomes of it: a pong goes to the oldest
/// pong promise, any other identifier to the promise registered under it, which leaves
/// the registry; the rest of the message is then decoded as what that promise waits for.
pub open spec fn resolve_spec<P>(s: ResolverV<P>, msg: Seq<u8>) -> (ResolverV<P>, OutcomeV<P>) {
    match parse_str(msg, 0) {
        Err(e) => (s, OutcomeV::Rejected(e)),
        Ok((id, pos)) => if str_text(id) == pong_name() {
            if s.pongs.len() == 0 {
                (s, OutcomeV::Rejected(Error::MissingResponsePromise))
            } else {
                let rest = ResolverV { pongs: s.pongs.drop_first(), keyed: s.keyed };
                match parse_expected(Kind::Str, msg, pos) {
                    Ok((v, _)) => (rest, OutcomeV::Fulfilled(s.pongs[0], v)),
                    Err(e) => (rest, OutcomeV::Failed(s.pongs[0], e)),
                }
            }
        } else {
            let i = find_id(s.keyed, str_text(id));
            if i < 0 {
                (s, OutcomeV::Rejected(Error::MissingResponsePromise))
            } else {
                let rest = ResolverV { pongs: s.pongs, keyed: s.keyed.remove(i) };
                match parse_expected(Kind::InfoList, msg, pos) {
                    Ok((v, _)) => (rest, OutcomeV::Fulfilled(s.keyed[i].1, v)),
                    Err(e) => (rest, OutcomeV::Failed(s.keyed[i].1, e)),
                }
            }
        },
    }
}

impl<P> View for MessageResolver<P> {
    type V = ResolverV<P>;

    closed spec fn view(&self) -> ResolverV<P> {
        ResolverV {
            pongs: self.pongs@,
            keyed: self.keyed@.map_values(|e: (String, P)| (e.0@, e.1)),
        }
    }
}

impl<P> MessageResolver<P> {
    /// A resolver with nothing registered.
    pub fn new() -> (r: Self)
        ensures
            r@.pongs.len() == 0,
            r@.keyed.len() == 0,
    {
        MessageResolver { pongs: VecDeque::new(), keyed: Vec::new() }
    }

    /// Queues a promise for the next pong that no earlier promise takes.
    pub fn register_pong(&mut self, promise: P)
        ensures
            final(self)@.pongs == old(self)@.pongs.push(promise),
            final(self)@.keyed == old(self)@.keyed,
    {
        self.pongs.push_back(promise);
        assert(self@.keyed =~= old(self)@.keyed);
    }

    /// Registers a promise for the one reply that arrives under `id`. A promise that was
    /// registered under the same id before is handed back.
    pub fn register_promise(&mut self, id: String, promise: P) -> (r: Option<P>)
        ensures
            final(self)@.pongs == old(self)@.pongs,
            final(self)@.keyed == keyed_put(old(self)@.keyed, id@, promise),
            find_id(old(self)@.keyed, id@) >= 0 ==> r == Some(
                old(self)@.keyed[find_id(old(self)@.keyed, id@)].1,
            ),
            find_id(old(self)@.keyed, id@) < 0 ==> r is None,
    {
        let ghost k = self@.keyed;
        let mut j: usize = self.keyed.len();
        assert(k.subrange(0, j as int) =~= k);
        while j > 0
            invariant
                j <= self.keyed@.len(),
                self == old(self),
                k == self@.keyed,
                k.len() == self.keyed@.len(),
                forall|i: int|
                    0 <= i < k.len() ==> #[trigger] k[i] == (self.keyed@[i].0@, self.keyed@[i].1),
                find_id(k, id@) == find_id(k.subrange(0, j as int), id@),
            decreases j,
        {
            if self.keyed[j - 1].0.eq(&id) {
                assert(k.subrange(0, j as int).last() == k[j - 1]);
                let ghost idv = id@;
                let (_, old_promise) = self.keyed.remove(j - 1);
                self.keyed.insert(j - 1, (id, promise));
                assert(self@.keyed =~= k.update(j - 1, (idv, promise)));
                assert(self@.pongs == old(self)@.pongs);
                return Some(old_promise);
            }
            assert(k.subrange(0, j - 1) =~= k.subrange(0, j as int).drop_last());
            j = j - 1;
        }
        assert(k.subrange(0, 0) =~= Seq::<(Seq<char>, P)>::empty());
        let ghost idv = id@;
        self.keyed.push((id, promise));
        assert(self@.keyed =~= k.push((idv, promise)));
        None
    }

    /// Takes out every promise still waiting: the pong promises, oldest first, then the
    /// keyed ones in the registry's order.
    pub fn take_all(&mut self) -> (r: Vec<P>)
        ensures
            r@ == old(self)@.pongs + old(self)@.keyed.map_values(|e: (Seq<char>, P)| e.1),
            final(self)@.pongs.len() == 0,
            final(self)@.keyed.len() == 0,
    {
        let mut out: Vec<P> = Vec::new();
        let ghost pongs = self.pongs@;
        while self.pongs.len() > 0
            invariant
                out@ + self.pongs@ == pongs,
                pongs == old(self)@.pongs,
                self.keyed == old(self).keyed,
            decreases self.pongs@.len(),
        {
            let ghost before = self.pongs@;
            let ghost done = out@;
            match self.pongs.pop_front() {
                Some(p) => {
                    out.push(p);
                    assert(out@ + self.pongs@ =~= done + before);
                },
                None => {},
            }
        }
        assert(out@ =~= pongs);
        let mut keyed: Vec<(String, P)> = Vec::new();
        std::mem::swap(&mut keyed, &mut self.keyed);
        let ghost k = keyed@;
        let ghost front = out@;
        let ghost n = k.len();
        while keyed.len() > 0
            invariant
                keyed@.len() <= n,
                n == k.len(),
                keyed@ == k.subrange(n - keyed@.len(), n as int),
                out@ == front + k.subrange(0, n - keyed@.len()).map_values(|e: (String, P)| e.1),
            decreases keyed@.len(),
        {
            let ghost taken = n - keyed@.len();
            let (_, p) = keyed.remove(0);
            assert(k.subrange(0, taken + 1).map_values(|e: (String, P)| e.1) =~= k.subrange(
                0,
                taken,
            ).map_values(|e: (String, P)| e.1).push(p));
            out.push(p);
            assert(keyed@ =~= k.subrange(n - keyed@.len(), n as int));
        }
        assert(k.subrange(0, n as int) =~= k);
        assert(self@.keyed =~= Seq::<(Seq<char>, P)>::empty());
        assert(k.map_values(|e: (String, P)| e.1) =~= old(self)@.keyed.map_values(
            |e: (Seq<char>, P)| e.1,
        ));
        out
    }

    /// Takes the message `msg`, identifier first, and says which promise it resolves
    /// and with what.
    pub fn resolve(&mut self, msg: &[u8]) -> (r: Outcome<P>)
        ensures
            (final(self)@, r@) == resolve_spec(old(self)@, msg@),
    {
        let (id, pos) = match Str::decode_bare(msg, 0) {
            Ok(x) => x,
            Err(e) => return Outcome::Rejected(e),
        };
        match Id::from_name(id.as_str()) {
            Id::Pong => {
                let promise = match self.pongs.pop_front() {
                    Some(p) => p,
                    None => return Outcome::Rejected(Error::MissingResponsePromise),
                };
                assert(self@.pongs =~= old(self)@.pongs.drop_first());
                match Str::decode(msg, pos) {
                    Ok((text, _)) => Outcome::Fulfilled(promise, Message::Pong(Pong(text))),
                    Err(e) => Outcome::Failed(promise, e),
                }
            },
            Id::Event(_) => self.resolve_keyed(id.as_str(), msg, pos),
            Id::Other(name) => self.resolve_keyed(name.as_str(), msg, pos),
        }
    }

    /// Where the registration under `name` stands.
    fn find_keyed(&self, name: &str) -> (r: Option<usize>)
        ensures
            match r {
                Some(i) => find_id(self@.keyed, name@) == i && i < self@.keyed.len(),
                None => find_id(self@.keyed, name@) < 0,
            },
    {
        let ghost k = self@.keyed;
        let mut j: usize = self.keyed.len();
        assert(k.subrange(0, j as int) =~= k);
        while j > 0
            invariant
                j <= self.keyed@.len(),
                k == self@.keyed,
                k.len() == self.keyed@.len(),
                forall|i: int|
                    0 <= i < k.len() ==> #[trigger] k[i] == (self.keyed@[i].0@, self.keyed@[i].1),
                find_id(k, name@) == find_id(k.subrange(0, j as int), name@),
            decreases j,
        {
            if same_text(self.keyed[j - 1].0.as_str(), name) {
                assert(k.subrange(0, j as int).last() == k[j - 1]);
                return Some(j - 1);
            }
            assert(k.subrange(0, j - 1) =~= k.subrange(0, j as int).drop_last());
            j = j - 1;
        }
        assert(k.subrange(0, 0) =~= Seq::<(Seq<char>, P)>::empty());
        None
    }

    fn resolve_keyed(&mut self, name: &str, msg: &[u8], pos: usize) -> (r: Outcome<P>)
        requires
            name@ != pong_name(),
            parse_str(msg@, 0) matches Ok((id, p)) && str_text(id) == name@ && p == pos,
        ensures
            (final(self)@, r@) == resolve_spec(old(self)@, msg@),
    {
        let i = match self.find_keyed(name) {
            Some(i) => i,
            None => return Outcome::Rejected(Error::MissingResponsePromise),
        };
        let ghost k = self@.keyed;
        let (_, promise) = self.keyed.remove(i);
        assert(self@.keyed =~= k.remove(i as int));
        match InfoList::decode(msg, pos) {
            Ok((list, _)) => Outcome::Fulfilled(promise, Message::InfoList(list)),
            Err(e) => Outcome::Failed(promise, e),
        }
    }
}

} // verus!

verus! {

/// Whether `msg` is headed by the pong identifier.
pub open spec fn is_pong(msg: Seq<u8>) -> bool {
    parse_str(msg, 0) matches Ok((id, _)) && str_text(id) == pong_name()
}

/// The identifier that heads `msg`, where it decodes.
pub open spec fn heads_with(msg: Seq<u8>, name: Seq<char>) -> bool {
    parse_str(msg, 0) matches Ok((id, _)) && str_text(id) == name
}

/// The promise that an outcome settles, if any.
pub open spec fn settled<P>(o: OutcomeV<P>) -> Option<P> {
    match o {
        OutcomeV::Fulfilled(p, _) => Some(p),
        OutcomeV::Failed(p, _) => Some(p),
        OutcomeV::Rejected(_) => None,
    }
}

/// Pong promises are settled in the order in which they were registered: with none
/// waiting, two registrations followed by two pongs settle the first promise, then the
/// second.
pub proof fn lemma_pongs_in_order<P>(s: ResolverV<P>, p1: P, p2: P, m1: Seq<u8>, m2: Seq<u8>)
    requires
        s.pongs.len() == 0,
        is_pong(m1),
        is_pong(m2),
    ensures
        ({
            let registered = ResolverV { pongs: s.pongs.push(p1).push(p2), keyed: s.keyed };
            let (after1, o1) = resolve_spec(registered, m1);
            let (after2, o2) = resolve_spec(after1, m2);
            settled(o1) == Some(p1) && settled(o2) == Some(p2) && after2.pongs.len() == 0
                && after2.keyed == s.keyed
        }),
{
    let registered = ResolverV { pongs: s.pongs.push(p1).push(p2), keyed: s.keyed };
    assert(registered.pongs =~= seq![p1, p2]);
    assert(registered.pongs.drop_first() =~= seq![p2]);
}

/// A pong with no pong promise waiting is refused, and changes nothing.
pub proof fn lemma_pong_without_promise<P>(s: ResolverV<P>, m: Seq<u8>)
    requires
        s.pongs.len() == 0,
        is_pong(m),
    ensures
        resolve_spec(s, m) == (s, OutcomeV::<P>::Rejected(Error::MissingResponsePromise)),
{
}

/// A reply under an id for which nothing is registered is refused, and changes nothing.
pub proof fn lemma_unregistered_id<P>(s: ResolverV<P>, m: Seq<u8>, id: Seq<char>)
    requires
        heads_with(m, id),
        id != pong_name(),
        find_id(s.keyed, id) < 0,
    ensures
        resolve_spec(s, m) == (s, OutcomeV::<P>::Rejected(Error::MissingResponsePromise)),
{
}

/// A registration under an id is settled by the first reply under that id, which takes
/// it out of the registry and leaves the pong queue alone.
pub proof fn lemma_keyed_round<P>(s: ResolverV<P>, id: Seq<char>, p: P, m: Seq<u8>)
    requires
        heads_with(m, id),
        id != pong_name(),
    ensures
        ({
            let k2 = keyed_put(s.keyed, id, p);
            let (after, o) = resolve_spec(ResolverV { pongs: s.pongs, keyed: k2 }, m);
            settled(o) == Some(p) && after.pongs == s.pongs && after.keyed == k2.remove(
                find_id(k2, id),
            )
        }),
{
    lemma_find_after_put(s.keyed, id, p);
}

/// After a registration under `id`, the registry finds that registration under `id`.
pub proof fn lemma_find_after_put<P>(keyed: Seq<(Seq<char>, P)>, id: Seq<char>, p: P)
    ensures
        ({
            let k2 = keyed_put(keyed, id, p);
            let i = find_id(k2, id);
            0 <= i < k2.len() && k2[i] == (id, p)
        }),
    decreases keyed.len(),
{
    let i = find_id(keyed, id);
    lemma_find_id_bounds(keyed, id);
    if i >= 0 {
        lemma_find_id_update(keyed, id, i, p);
    } else {
        let k2 = keyed.push((id, p));
        assert(k2.last() == (id, p));
    }
}

proof fn lemma_find_id_bounds<P>(keyed: Seq<(Seq<char>, P)>, id: Seq<char>)
    ensures
        -1 <= find_id(keyed, id) < keyed.len(),
        find_id(keyed, id) >= 0 ==> keyed[find_id(keyed, id)].0 == id,
    decreases keyed.len(),
{
    if keyed.len() > 0 {
        lemma_find_id_bounds(keyed.drop_last(), id);
    }
}

proof fn lemma_find_id_update<P>(keyed: Seq<(Seq<char>, P)>, id: Seq<char>, i: int, p: P)
    requires
        i == find_id(keyed, id),
        0 <= i < keyed.len(),
    ensures
        find_id(keyed.update(i, (id, p)), id) == i,
    decreases keyed.len(),
{
    let k2 = keyed.update(i, (id, p));
    if i < keyed.len() - 1 {
        assert(keyed.last().0 != id);
        assert(k2.drop_last() =~= keyed.drop_last().update(i, (id, p)));
        lemma_find_id_update(keyed.drop_last(), id, i, p);
    }
}

} // verus!
