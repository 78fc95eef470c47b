//! The table of requests that were sent and not yet answered.

use crate::file::BlockInfo;
use crate::peers::PeerAddr;
use crate::timer::Token;
use crate::utils::{has_value, without_value, RemoveValue};
use vstd::prelude::*;

verus! {

/// What a request asked for, and of whom.
pub type Pending = (BlockInfo, PeerAddr);

/// One entry: the token of the request's timer, and the request.
pub type Entry = (Token, Pending);

/// The requests in flight, each under the token of its timer.
pub struct RequestTable {
    entries: Vec<Entry>,
}

/// A way to pick entries out of the table.
pub enum Selector {
    /// The entry under a token.
    Token(Token),
    /// The requests to a peer.
    Peer(PeerAddr),
    /// The requests for a block to a peer.
    Value(BlockInfo, PeerAddr),
}

impl Selector {
    /// Whether the selector picks `e`.
    pub open spec fn selects(self, e: Entry) -> bool {
        match self {
            Selector::Token(token) => e.0 == token,
            Selector::Peer(peer) => e.1.1 == peer,
            Selector::Value(block, peer) => e.1 == (block, peer),
        }
    }
}

/// The entries that `sel` does not pick, in their order.
pub open spec fn kept(s: Seq<Entry>, sel: Selector) -> Seq<Entry>
    decreases s.len(),
{
    if s.len() == 0 {
        s
    } else if sel.selects(s.last()) {
        kept(s.drop_last(), sel)
    } else {
        kept(s.drop_last(), sel).push(s.last())
    }
}

/// The entries that `sel` picks, in their order.
pub open spec fn dropped(s: Seq<Entry>, sel: Selector) -> Seq<Entry>
    decreases s.len(),
{
    if s.len() == 0 {
        s
    } else if sel.selects(s.last()) {
        dropped(s.drop_last(), sel).push(s.last())
    } else {
        dropped(s.drop_last(), sel)
    }
}

/// The number of entries that are requests to `peer`.
pub open spec fn count_to(s: Seq<Entry>, peer: PeerAddr) -> int
    decreases s.len(),
{
    if s.len() == 0 {
        0
    } else {
        count_to(s.drop_last(), peer) + if s.last().1.1 == peer {
            1int
        } else {
            0int
        }
    }
}

/// Whether some entry is a request for `block`.
pub open spec fn holds_block(s: Seq<Entry>, block: BlockInfo) -> bool {
    exists|i: int| 0 <= i < s.len() && (#[trigger] s[i]).1.0 == block
}

/// Whether some entry has the token `token`.
pub open spec fn holds_token(s: Seq<Entry>, token: Token) -> bool {
    exists|i: int| 0 <= i < s.len() && (#[trigger] s[i]).0 == token
}

/// The place of the entry with the token `token`.
pub open spec fn token_index(s: Seq<Entry>, token: Token) -> int {
    choose|i: int| 0 <= i < s.len() && (#[trigger] s[i]).0 == token
}

/// Whether no two entries share a token.
pub open spec fn distinct_tokens(s: Seq<Entry>) -> bool {
    forall|i: int, j: int| 0 <= i < j < s.len() ==> (#[trigger] s[i]).0 != (#[trigger] s[j]).0
}

/// The entries whose token is not `token`.
pub open spec fn without_token(s: Seq<Entry>, token: Token) -> Seq<Entry> {
    kept(s, Selector::Token(token))
}

/// The entries that are not requests to `peer`.
pub open spec fn without_peer(s: Seq<Entry>, peer: PeerAddr) -> Seq<Entry> {
    kept(s, Selector::Peer(peer))
}

/// The tokens of `s`, in order.
pub open spec fn tokens_of(s: Seq<Entry>) -> Seq<Token> {
    Seq::new(s.len(), |i: int| s[i].0)
}

/// The tokens of the requests to `peer`, in the order of their entries.
pub open spec fn tokens_to(s: Seq<Entry>, peer: PeerAddr) -> Seq<Token> {
    tokens_of(dropped(s, Selector::Peer(peer)))
}

/// A selection splits the table in two: what is kept was there and is not
/// picked, what is dropped was there and is picked, and nothing is lost.
pub proof fn lemma_split(s: Seq<Entry>, sel: Selector)
    ensures
        kept(s, sel).len() + dropped(s, sel).len() == s.len(),
        forall|i: int|
            0 <= i < kept(s, sel).len() ==> s.contains(#[trigger] kept(s, sel)[i]) && !sel.selects(kept(s, sel)[i]),
        forall|i: int|
            0 <= i < dropped(s, sel).len() ==> s.contains(#[trigger] dropped(s, sel)[i]) && sel.selects(
                dropped(s, sel)[i],
            ),
        forall|i: int| 0 <= i < s.len() && !sel.selects(s[i]) ==> kept(s, sel).contains(#[trigger] s[i]),
        forall|i: int| 0 <= i < s.len() && sel.selects(s[i]) ==> dropped(s, sel).contains(#[trigger] s[i]),
        distinct_tokens(s) ==> distinct_tokens(kept(s, sel)) && distinct_tokens(dropped(s, sel)),
        forall|peer: PeerAddr| count_to(kept(s, sel), peer) + count_to(dropped(s, sel), peer) == #[trigger] count_to(s, peer),
    decreases s.len(),
{
    if s.len() > 0 {
        let front = s.drop_last();
        lemma_split(front, sel);
        let last = s.last();
        let grown = if sel.selects(last) { dropped(s, sel) } else { kept(s, sel) };
        let base = if sel.selects(last) { dropped(front, sel) } else { kept(front, sel) };
        let same = if sel.selects(last) { kept(s, sel) } else { dropped(s, sel) };
        assert(grown == base.push(last));
        assert(grown.drop_last() =~= base);
        assert forall|x: Entry| front.contains(x) implies s.contains(x) by {
            let j = choose|j: int| 0 <= j < front.len() && front[j] == x;
            assert(s[j] == x);
        }
        assert(s[s.len() - 1] == last);
        assert forall|i: int| 0 <= i < grown.len() implies s.contains(#[trigger] grown[i]) by {
            if i < base.len() {
                assert(grown[i] == base[i]);
            }
        }
        assert forall|i: int| 0 <= i < s.len() implies (if sel.selects(s[i]) {
            dropped(s, sel).contains(#[trigger] s[i])
        } else {
            kept(s, sel).contains(s[i])
        }) by {
            if i < front.len() {
                assert(front[i] == s[i]);
                if sel.selects(s[i]) == sel.selects(last) {
                    let j = choose|j: int| 0 <= j < base.len() && base[j] == s[i];
                    assert(grown[j] == s[i]);
                }
            } else {
                assert(grown[grown.len() - 1] == s[i]);
            }
        }
        assert forall|peer: PeerAddr| count_to(kept(s, sel), peer) + count_to(dropped(s, sel), peer) == #[trigger] count_to(
            s,
            peer,
        ) by {
            assert(count_to(grown, peer) == count_to(base, peer) + if last.1.1 == peer {
                1int
            } else {
                0int
            });
            assert(count_to(kept(front, sel), peer) + count_to(dropped(front, sel), peer) == count_to(front, peer));
        }
        if distinct_tokens(s) {
            assert forall|i: int, j: int| 0 <= i < j < front.len() implies (#[trigger] front[i]).0 != (
            #[trigger] front[j]).0 by {
                assert(front[i] == s[i] && front[j] == s[j]);
            }
            assert forall|i: int, j: int| 0 <= i < j < grown.len() implies (#[trigger] grown[i]).0 != (
            #[trigger] grown[j]).0 by {
                assert(grown[i] == base[i]);
                if j < base.len() {
                    assert(grown[j] == base[j]);
                } else {
                    assert(front.contains(base[i]));
                    let a = choose|a: int| 0 <= a < front.len() && front[a] == base[i];
                    assert(s[a] == base[i]);
                }
            }
        }
    }
}

/// A selection that picks nothing keeps everything.
pub proof fn lemma_nothing_dropped(s: Seq<Entry>, sel: Selector)
    requires
        dropped(s, sel).len() == 0,
    ensures
        kept(s, sel) == s,
    decreases s.len(),
{
    if s.len() > 0 {
        lemma_nothing_dropped(s.drop_last(), sel);
        assert(kept(s, sel) =~= s);
    }
}

/// Removing a token that no entry has changes nothing.
pub proof fn lemma_absent_token(s: Seq<Entry>, token: Token)
    requires
        !holds_token(s, token),
    ensures
        without_token(s, token) == s,
{
    let sel = Selector::Token(token);
    lemma_split(s, sel);
    if dropped(s, sel).len() > 0 {
        let e = dropped(s, sel)[0];
        assert(s.contains(e));
        let j = choose|j: int| 0 <= j < s.len() && s[j] == e;
        assert(s[j].0 == token);
    }
    lemma_nothing_dropped(s, sel);
}

/// Removing the requests to a peer leaves none to it and touches no other
/// peer's.
pub proof fn lemma_without_peer(s: Seq<Entry>, peer: PeerAddr)
    ensures
        tokens_to(s, peer).len() == count_to(s, peer),
        count_to(without_peer(s, peer), peer) == 0,
        forall|other: PeerAddr| other != peer ==> count_to(without_peer(s, peer), other) == #[trigger] count_to(s, other),
    decreases s.len(),
{
    if s.len() > 0 {
        let front = s.drop_last();
        lemma_without_peer(front, peer);
        let sel = Selector::Peer(peer);
        if sel.selects(s.last()) {
            assert(dropped(s, sel).drop_last() =~= dropped(front, sel));
        } else {
            assert(kept(s, sel).drop_last() =~= kept(front, sel));
        }
        assert forall|other: PeerAddr| other != peer implies count_to(without_peer(s, peer), other) == #[trigger] count_to(
            s,
            other,
        ) by {
            assert(count_to(without_peer(front, peer), other) == count_to(front, other));
        }
    }
}

/// Selecting by value keeps what a removal by value keeps.
pub proof fn lemma_kept_is_without_value(s: Seq<Entry>, block: BlockInfo, peer: PeerAddr)
    ensures
        kept(s, Selector::Value(block, peer)) == without_value(s, (block, peer)),
    decreases s.len(),
{
    if s.len() > 0 {
        lemma_kept_is_without_value(s.drop_last(), block, peer);
    }
}

impl View for RequestTable {
    type V = Seq<Entry>;

    closed spec fn view(&self) -> Seq<Entry> {
        self.entries@
    }
}

/// Whether two blocks are the same.
pub fn same_block(a: &BlockInfo, b: &BlockInfo) -> (r: bool)
    ensures
        r == (*a == *b),
{
    a.piece == b.piece && a.range.start == b.range.start && a.range.end == b.range.end
}

impl Selector {
    fn picks(&self, e: &Entry) -> (r: bool)
        ensures
            r == self.selects(*e),
    {
        match self {
            Selector::Token(token) => e.0 == *token,
            Selector::Peer(peer) => e.1.1 == *peer,
            Selector::Value(block, peer) => same_block(&e.1.0, block) && e.1.1 == *peer,
        }
    }
}

impl RequestTable {
    /// No two entries share a token.
    pub open spec fn wf(&self) -> bool {
        distinct_tokens(self@)
    }

    /// A table with no entry.
    pub fn new() -> (r: Self)
        ensures
            r@ == Seq::<Entry>::empty(),
            r.wf(),
    {
        RequestTable { entries: Vec::new() }
    }

    /// The number of entries.
    pub fn len(&self) -> (r: usize)
        ensures
            r == self@.len(),
    {
        self.entries.len()
    }

    /// The number of requests to `peer`.
    pub fn count_to(&self, peer: PeerAddr) -> (r: usize)
        ensures
            r == count_to(self@, peer),
    {
        let mut count: usize = 0;
        let mut i: usize = 0;
        while i < self.entries.len()
            invariant
                i <= self.entries@.len(),
                count == count_to(self.entries@.take(i as int), peer),
                count <= i,
            decreases self.entries@.len() - i,
        {
            assert(self.entries@.take(i + 1).drop_last() =~= self.entries@.take(i as int));
            if self.entries[i].1.1 == peer {
                count += 1;
            }
            i += 1;
        }
        assert(self.entries@.take(i as int) =~= self.entries@);
        count
    }

    /// Whether some request is for `block`.
    pub fn holds_block(&self, block: &BlockInfo) -> (r: bool)
        ensures
            r == holds_block(self@, *block),
    {
        let mut i: usize = 0;
        while i < self.entries.len()
            invariant
                i <= self.entries@.len(),
                forall|k: int| 0 <= k < i ==> (#[trigger] self.entries@[k]).1.0 != *block,
            decreases self.entries@.len() - i,
        {
            if same_block(&self.entries[i].1.0, block) {
                return true;
            }
            i += 1;
        }
        false
    }

    /// The request under `token`, if there is one.
    pub fn get(&self, token: Token) -> (r: Option<&Pending>)
        requires
            self.wf(),
        ensures
            r is Some <==> holds_token(self@, token),
            r matches Some(p) ==> *p == self@[token_index(self@, token)].1,
    {
        let mut i: usize = 0;
        while i < self.entries.len()
            invariant
                i <= self.entries@.len(),
                distinct_tokens(self.entries@),
                forall|k: int| 0 <= k < i ==> (#[trigger] self.entries@[k]).0 != token,
            decreases self.entries@.len() - i,
        {
            if self.entries[i].0 == token {
                proof {
                    let k = token_index(self@, token);
                    assert(self@[i as int].0 == token);
                    assert(k == i);
                }
                return Some(&self.entries[i].1);
            }
            i += 1;
        }
        None
    }

    /// Takes out the entries that `sel` picks, and returns them.
    pub fn extract(&mut self, sel: &Selector) -> (out: Vec<Entry>)
        ensures
            final(self)@ == kept(old(self)@, *sel),
            out@ == dropped(old(self)@, *sel),
    {
        let ghost all = self.entries@;
        let mut out: Vec<Entry> = Vec::new();
        let mut i: usize = 0;
        let ghost mut j: int = 0;
        assert(all.take(0) =~= Seq::<Entry>::empty());
        while i < self.entries.len()
            invariant
                0 <= j <= all.len(),
                i <= self.entries@.len(),
                self.entries@.len() - i == all.len() - j,
                self.entries@.take(i as int) == kept(all.take(j), *sel),
                self.entries@.skip(i as int) == all.skip(j),
                out@ == dropped(all.take(j), *sel),
            decreases self.entries@.len() - i,
        {
            proof {
                assert(all.take(j + 1).drop_last() =~= all.take(j));
                assert(all.take(j + 1).last() == all[j]);
                assert(self.entries@.skip(i as int)[0] == all.skip(j)[0]);
            }
            let ghost before = self.entries@;
            if sel.picks(&self.entries[i]) {
                let entry = self.entries.remove(i);
                out.push(entry);
                proof {
                    assert(self.entries@.take(i as int) =~= before.take(i as int));
                    assert(self.entries@.skip(i as int) =~= before.skip(i as int).skip(1));
                    assert(all.skip(j).skip(1) =~= all.skip(j + 1));
                }
            } else {
                i += 1;
                proof {
                    assert(before.take(i as int) =~= before.take(i - 1).push(before[i - 1]));
                    assert(before.skip(i as int) =~= before.skip(i - 1).skip(1));
                    assert(all.skip(j).skip(1) =~= all.skip(j + 1));
                }
            }
            proof {
                j = j + 1;
            }
        }
        proof {
            assert(all.take(j) =~= all);
            assert(self.entries@.take(i as int) =~= self.entries@);
        }
        out
    }

    /// Puts `pending` under `token`. An entry that had the token is
    /// replaced, and its request is returned.
    pub fn insert(&mut self, token: Token, pending: Pending) -> (r: Option<Pending>)
        requires
            old(self).wf(),
        ensures
            final(self).wf(),
            final(self)@ == without_token(old(self)@, token).push((token, pending)),
            r is Some <==> holds_token(old(self)@, token),
            r matches Some(p) ==> p == old(self)@[token_index(old(self)@, token)].1,
    {
        let r = self.remove(token);
        self.entries.push((token, pending));
        proof {
            lemma_split(old(self)@, Selector::Token(token));
            let base = without_token(old(self)@, token);
            assert forall|i: int, j: int| 0 <= i < j < self@.len() implies (#[trigger] self@[i]).0 != (#[trigger] self@[j]).0 by {
                assert(self@[i] == base[i]);
                if j < base.len() {
                    assert(self@[j] == base[j]);
                }
            }
        }
        r
    }

    /// Removes the entry under `token`, and returns its request.
    pub fn remove(&mut self, token: Token) -> (r: Option<Pending>)
        requires
            old(self).wf(),
        ensures
            final(self).wf(),
            final(self)@ == without_token(old(self)@, token),
            r is Some <==> holds_token(old(self)@, token),
            r matches Some(p) ==> p == old(self)@[token_index(old(self)@, token)].1,
    {
        let mut out = self.extract(&Selector::Token(token));
        proof {
            lemma_split(old(self)@, Selector::Token(token));
        }
        let last = out.pop();
        proof {
            let s = old(self)@;
            let d = dropped(s, Selector::Token(token));
            if holds_token(s, token) {
                let i = token_index(s, token);
                assert(d.contains(s[i]));
            }
            if d.len() > 0 {
                let e = d[d.len() - 1];
                assert(s.contains(e));
                let a = choose|a: int| 0 <= a < s.len() && s[a] == e;
                let i = token_index(s, token);
                assert(a == i);
            }
        }
        match last {
            Some(entry) => Some(entry.1),
            None => None,
        }
    }

    /// Removes every request to `peer`, and returns their tokens.
    pub fn remove_peer(&mut self, peer: PeerAddr) -> (r: Vec<Token>)
        requires
            old(self).wf(),
        ensures
            final(self).wf(),
            final(self)@ == without_peer(old(self)@, peer),
            r@ == tokens_to(old(self)@, peer),
    {
        let out = self.extract(&Selector::Peer(peer));
        proof {
            lemma_split(old(self)@, Selector::Peer(peer));
        }
        let mut tokens: Vec<Token> = Vec::new();
        let mut i: usize = 0;
        while i < out.len()
            invariant
                i <= out@.len(),
                tokens@ == tokens_of(out@.take(i as int)),
            decreases out@.len() - i,
        {
            tokens.push(out[i].0);
            i += 1;
            assert(tokens@ =~= tokens_of(out@.take(i as int)));
        }
        assert(out@.take(i as int) =~= out@);
        tokens
    }
}

impl RemoveValue<Token, Pending> for RequestTable {
    open spec fn pairs(&self) -> Seq<Entry> {
        self@
    }

    fn remove_value(&mut self, value: Pending) -> (key: Option<Token>) {
        let ghost s = self@;
        let sel = Selector::Value(value.0, value.1);
        let mut out = self.extract(&sel);
        proof {
            lemma_split(s, sel);
            lemma_kept_is_without_value(s, value.0, value.1);
            let d = dropped(s, sel);
            if has_value(s, value) {
                let i = choose|i: int| 0 <= i < s.len() && (#[trigger] s[i]).1 == value;
                assert(d.contains(s[i]));
            }
            if d.len() > 0 {
                let e = d[d.len() - 1];
                assert(s.contains(e));
                let a = choose|a: int| 0 <= a < s.len() && s[a] == e;
                assert(s[a].1 == value);
                assert(e == (e.0, value));
            }
        }
        match out.pop() {
            Some(entry) => Some(entry.0),
            None => None,
        }
    }
}

} // verus!
