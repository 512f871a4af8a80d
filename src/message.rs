//! Messages, groups of message variants keyed by selector set, and the
//! source/target pairs that make up a unit of translation.

use vstd::prelude::*;
use vstd::std_specs::cmp::PartialEqSpec;
use vstd::string::*;

use crate::error::MessageError;
use crate::map_model::{keys_unique, lemma_last_key_fresh, lemma_pairs_to_map, pairs_to_map};
use crate::pattern::{parts_text, MessagePattern};
use crate::selector::{catch_all_of, lemma_same_pairs_equal, pairs_text, PHValsMap};

verus! {

/// One concrete rendition of a message: a pattern in one locale, for one
/// combination of selector values.
#[derive(Clone, Debug)]
pub struct SingleMessage {
    pub id: String,
    pub locale: String,
    pub pattern: MessagePattern,
    pub ph_vals: PHValsMap,
}

/// How a message is written for display: its pattern.
pub open spec fn message_text(m: SingleMessage) -> Seq<char> {
    seq!['['] + parts_text(m.pattern.parts@) + seq![']']
}

impl SingleMessage {
    /// The message written for display: its pattern as `[...]`.
    pub fn to_string(&self) -> (r: String)
        ensures
            r@ == message_text(*self),
    {
        self.pattern.to_string()
    }
}

/// The selector set that keys the catch-all fallback of a query.
pub open spec fn fallback_key(
    g: Map<Map<Seq<char>, Seq<char>>, SingleMessage>,
    q: Map<Seq<char>, Seq<char>>,
) -> Option<Map<Seq<char>, Seq<char>>> {
    if g.contains_key(q) {
        Some(q)
    } else if g.contains_key(catch_all_of(q)) {
        Some(catch_all_of(q))
    } else if g.contains_key(Map::empty()) {
        Some(Map::empty())
    } else {
        None
    }
}

/// How a group looks for a variant when none matches the query exactly.
#[derive(Clone, Copy, Debug, PartialEq, Eq)]
pub enum FallbackPolicy {
    /// Exact matches only.
    Exact,
    /// After the exact query, the query with every selector set to `OTHER`,
    /// and last the empty selector set.
    CatchAll,
}

/// The variants of one logical message, keyed by their selector sets. No two
/// variants have equal selector sets.
#[derive(Clone, Debug)]
pub struct MessageGroup {
    id: String,
    messages: Vec<SingleMessage>,
}

/// A group's entries written one per line, each as `  key: message`.
pub open spec fn group_lines(s: Seq<SingleMessage>) -> Seq<char>
    decreases s.len(),
{
    if s.len() == 0 {
        Seq::empty()
    } else {
        group_lines(s.drop_last()) + seq!['\n', ' ', ' ', '{'] + pairs_text(s.last().ph_vals.pairs())
            + seq!['}', ':', ' '] + message_text(s.last())
    }
}

impl MessageGroup {
    /// The variants with their keys, in the order they were inserted.
    pub closed spec fn entries(&self) -> Seq<(Map<Seq<char>, Seq<char>>, SingleMessage)> {
        self.messages@.map_values(|m: SingleMessage| (m.ph_vals@, m))
    }

    /// The variants in the order they were inserted.
    pub closed spec fn variants(&self) -> Seq<SingleMessage> {
        self.messages@
    }

    pub closed spec fn group_id(&self) -> Seq<char> {
        self.id@
    }

    /// Keys are unique and every key is a well-formed selector set.
    pub closed spec fn well_formed(&self) -> bool {
        &&& keys_unique(self.entries())
        &&& forall|i: int| 0 <= i < self.messages@.len() ==> (#[trigger] self.messages@[i]).ph_vals.well_formed()
    }

    /// An empty group.
    pub fn new(id: String) -> (r: MessageGroup)
        ensures
            r.well_formed(),
            r@ == Map::<Map<Seq<char>, Seq<char>>, SingleMessage>::empty(),
            r.group_id() == id@,
            r.variants() == Seq::<SingleMessage>::empty(),
    {
        let r = MessageGroup { id, messages: Vec::new() };
        assert(r.entries() =~= Seq::empty());
        r
    }

    /// The group's id.
    pub fn id(&self) -> (r: &String)
        ensures
            r@ == self.group_id(),
    {
        &self.id
    }

    /// The number of variants.
    pub fn len(&self) -> (r: usize)
        requires
            self.well_formed(),
        ensures
            r == self@.len(),
    {
        proof {
            self.lemma_variants();
        }
        self.messages.len()
    }

    /// The variants of a well-formed group are its entries listed once
    /// each: one per key, each stored under its own selector set, with
    /// well-formed, pairwise distinct selector sets.
    pub proof fn lemma_variants(&self)
        requires
            self.well_formed(),
        ensures
            self@.dom().finite(),
            self@.len() == self.variants().len(),
            forall|i: int|
                0 <= i < self.variants().len() ==> #[trigger] self@.contains_key(
                    self.variants()[i].ph_vals@,
                ) && self@[self.variants()[i].ph_vals@] == self.variants()[i]
                    && self.variants()[i].ph_vals.well_formed(),
            forall|i: int, j: int|
                0 <= i < j < self.variants().len() ==> self.variants()[i].ph_vals@
                    != self.variants()[j].ph_vals@,
            forall|k: Map<Seq<char>, Seq<char>>| #[trigger]
                self@.contains_key(k) ==> exists|i: int|
                    0 <= i < self.variants().len() && self.variants()[i].ph_vals@ == k,
    {
        let e = self.entries();
        lemma_count_keys(e);
        lemma_pairs_to_map(e);
        assert forall|i: int| 0 <= i < self.variants().len() implies #[trigger] self@.contains_key(
            self.variants()[i].ph_vals@,
        ) && self@[self.variants()[i].ph_vals@] == self.variants()[i]
            && self.variants()[i].ph_vals.well_formed() by {
            assert(e[i].0 == self.variants()[i].ph_vals@);
            assert(self@.contains_key(e[i].0));
        }
        assert forall|i: int, j: int| 0 <= i < j < self.variants().len() implies self.variants()[
            i].ph_vals@ != self.variants()[j].ph_vals@ by {
            assert(e[i].0 != e[j].0);
        }
        assert forall|k: Map<Seq<char>, Seq<char>>| #[trigger] self@.contains_key(k) implies exists|
            i: int,
        | 0 <= i < self.variants().len() && self.variants()[i].ph_vals@ == k by {
            let i = choose|i: int| 0 <= i < e.len() && e[i].0 == k;
            assert(self.variants()[i].ph_vals@ == k);
        }
    }

    /// The index of the variant whose key equals `q`.
    fn find(&self, q: &PHValsMap) -> (r: Option<usize>)
        requires
            self.well_formed(),
            q.well_formed(),
        ensures
            match r {
                Some(i) => i < self.messages@.len() && self.entries()[i as int].0 == q@
                    && self@.contains_key(q@) && self@[q@] == self.messages@[i as int],
                None => !self@.contains_key(q@),
            },
    {
        let n = self.messages.len();
        let mut i: usize = 0;
        while i < n
            invariant
                n == self.messages.len(),
                i <= n,
                self.well_formed(),
                q.well_formed(),
                forall|j: int| 0 <= j < i ==> self.entries()[j].0 != q@,
            decreases n - i,
        {
            let eq = self.messages[i].ph_vals == *q;
            proof {
                let k = self.messages@[i as int].ph_vals;
                assert(k.well_formed());
                if eq {
                    assert(k.eq_spec(q));
                } else if k@ == q@ {
                    lemma_same_pairs_equal(k, *q);
                }
            }
            if eq {
                proof {
                    lemma_pairs_to_map(self.entries());
                    assert(self.entries()[i as int].0 == q@);
                }
                return Some(i);
            }
            i = i + 1;
        }
        proof {
            lemma_pairs_to_map(self.entries());
            if self@.contains_key(q@) {
                let j = choose|j: int| 0 <= j < self.entries().len() && self.entries()[j].0 == q@;
            }
        }
        None
    }

    /// Adds `msg` as the variant for its own selector set. Fails, leaving the
    /// group as it was, when a variant with an equal selector set is present.
    pub fn insert(&mut self, msg: SingleMessage) -> (r: Result<(), MessageError>)
        requires
            old(self).well_formed(),
            msg.ph_vals.well_formed(),
        ensures
            final(self).well_formed(),
            final(self).group_id() == old(self).group_id(),
            match r {
                Ok(()) => !old(self)@.contains_key(msg.ph_vals@) && final(self)@ == old(self)@.insert(
                    msg.ph_vals@,
                    msg,
                ) && final(self).variants() == old(self).variants().push(msg),
                Err(e) => old(self)@.contains_key(msg.ph_vals@) && e == MessageError::DuplicateVariant
                    && final(self)@ == old(self)@ && final(self).variants() == old(self).variants(),
            },
    {
        if self.find(&msg.ph_vals).is_some() {
            return Err(MessageError::DuplicateVariant);
        }
        let ghost old_entries = self.entries();
        let ghost key = msg.ph_vals@;
        self.messages.push(msg);
        proof {
            let e = self.entries();
            assert(e.drop_last() =~= old_entries);
            lemma_pairs_to_map(old_entries);
            assert forall|i: int, j: int| 0 <= i < j < e.len() implies e[i].0 != e[j].0 by {
                if j == e.len() - 1 {
                    assert(e[i] == old_entries[i]);
                    assert(pairs_to_map(old_entries).contains_key(old_entries[i].0));
                } else {
                    assert(e[i] == old_entries[i] && e[j] == old_entries[j]);
                }
            }
            assert forall|i: int| 0 <= i < self.messages@.len() implies (
            #[trigger] self.messages@[i]).ph_vals.well_formed() by {
                if i < self.messages@.len() - 1 {
                    assert(old_entries[i].1 == self.messages@[i]);
                }
            }
        }
        Ok(())
    }

    /// The variant whose selector set equals `query` exactly.
    pub fn resolve(&self, query: &PHValsMap) -> (r: Result<&SingleMessage, MessageError>)
        requires
            self.well_formed(),
            query.well_formed(),
        ensures
            match r {
                Ok(m) => self@.contains_key(query@) && *m == self@[query@],
                Err(e) => !self@.contains_key(query@) && e == MessageError::NoVariantFound,
            },
    {
        match self.find(query) {
            Some(i) => Ok(&self.messages[i]),
            None => Err(MessageError::NoVariantFound),
        }
    }

    /// The variant for `query` under `policy`. With `CatchAll`, a query that
    /// matches no variant exactly falls back to the variant keyed by the same
    /// selectors all set to `OTHER`, and last to the variant keyed by the
    /// empty selector set.
    pub fn resolve_with(&self, query: &PHValsMap, policy: FallbackPolicy) -> (r: Result<
        &SingleMessage,
        MessageError,
    >)
        requires
            self.well_formed(),
            query.well_formed(),
        ensures
            policy == FallbackPolicy::Exact ==> match r {
                Ok(m) => self@.contains_key(query@) && *m == self@[query@],
                Err(e) => !self@.contains_key(query@) && e == MessageError::NoVariantFound,
            },
            policy == FallbackPolicy::CatchAll ==> match r {
                Ok(m) => fallback_key(self@, query@) matches Some(k) && *m == self@[k],
                Err(e) => fallback_key(self@, query@) is None && e == MessageError::NoVariantFound,
            },
    {
        let exact = self.resolve(query);
        if exact.is_ok() {
            return exact;
        }
        match policy {
            FallbackPolicy::Exact => exact,
            FallbackPolicy::CatchAll => {
                let other = query.catch_all();
                match self.find(&other) {
                    Some(i) => Ok(&self.messages[i]),
                    None => {
                        let empty = PHValsMap::new();
                        match self.find(&empty) {
                            Some(i) => Ok(&self.messages[i]),
                            None => Err(MessageError::NoVariantFound),
                        }
                    },
                }
            },
        }
    }

    /// The group written as its id, then one line per variant in insertion
    /// order, `  {key}: [pattern]`, in braces.
    pub fn to_string(&self) -> (r: String)
        ensures
            r@ == self.group_id() + seq![':', ' ', '{'] + group_lines(self.variants()) + seq![
                '\n',
                '}',
            ],
    {
        proof {
            reveal_strlit(": {");
        }
        let n = self.messages.len();
        let mut out = self.id.clone();
        out.append(": {");
        let mut i: usize = 0;
        assert(self.messages@.take(0) =~= Seq::<SingleMessage>::empty());
        while i < n
            invariant
                n == self.messages.len(),
                i <= n,
                out@ == self.group_id() + seq![':', ' ', '{'] + group_lines(
                    self.messages@.take(i as int),
                ),
            decreases n - i,
        {
            proof {
                reveal_strlit("\n  ");
                reveal_strlit(": ");
            }
            let key = self.messages[i].ph_vals.to_string();
            let text = self.messages[i].to_string();
            out.append("\n  ");
            out.append(key.as_str());
            out.append(": ");
            out.append(text.as_str());
            proof {
                let t = self.messages@.take(i + 1);
                assert(t.drop_last() =~= self.messages@.take(i as int));
                assert(t.last() == self.messages@[i as int]);
                assert(out@ =~= self.group_id() + seq![':', ' ', '{'] + group_lines(t));
            }
            i = i + 1;
        }
        proof {
            reveal_strlit("\n}");
        }
        out.append("\n}");
        assert(self.messages@.take(n as int) =~= self.messages@);
        out
    }
}

impl View for MessageGroup {
    type V = Map<Map<Seq<char>, Seq<char>>, SingleMessage>;

    open spec fn view(&self) -> Map<Map<Seq<char>, Seq<char>>, SingleMessage> {
        pairs_to_map(self.entries())
    }
}

/// A list with unique keys denotes a finite map with one key per entry.
proof fn lemma_count_keys<K, V>(s: Seq<(K, V)>)
    requires
        keys_unique(s),
    ensures
        pairs_to_map(s).dom().finite(),
        pairs_to_map(s).len() == s.len(),
    decreases s.len(),
{
    if s.len() > 0 {
        let p = s.drop_last();
        assert(keys_unique(p)) by {
            assert forall|i: int, j: int| 0 <= i < j < p.len() implies p[i].0 != p[j].0 by {
                assert(p[i] == s[i] && p[j] == s[j]);
            }
        }
        lemma_count_keys(p);
        lemma_last_key_fresh(s);
    }
}

/// Once `insert` has added `m` to `before`, giving `after` (its `Ok`
/// contract), `resolve` on `after` with any query holding the same pairs as
/// `m`'s selector set meets its `Ok` contract with `m`.
pub proof fn lemma_insert_then_resolve(
    before: MessageGroup,
    after: MessageGroup,
    m: SingleMessage,
    query: PHValsMap,
)
    requires
        after@ == before@.insert(m.ph_vals@, m),
        query@ == m.ph_vals@,
    ensures
        after@.contains_key(query@),
        after@[query@] == m,
{
}

/// Once `insert` has added `first` to `before`, giving `after`, a second
/// message whose selector set holds the same pairs meets the `Err` side of
/// `insert`'s contract on `after`: `DuplicateVariant`, with `after` kept, and
/// `resolve` on its key still gives `first`.
pub proof fn lemma_second_equal_key_taken(
    before: MessageGroup,
    after: MessageGroup,
    first: SingleMessage,
    second: SingleMessage,
)
    requires
        after@ == before@.insert(first.ph_vals@, first),
        first.ph_vals@ == second.ph_vals@,
    ensures
        after@.contains_key(second.ph_vals@),
        after@[second.ph_vals@] == first,
{
}

/// A message as one side of a text unit: one rendition, or a group of variants.
#[allow(non_camel_case_types)]
#[derive(Clone, Debug)]
pub enum MessageType {
    SINGLE(SingleMessage),
    GROUP(MessageGroup),
}

/// Both sides are single messages, or both are groups.
pub open spec fn same_shape(a: MessageType, b: MessageType) -> bool {
    (a is SINGLE) == (b is SINGLE)
}

/// A source rendition paired with its target rendition, of the same shape.
#[derive(Clone, Debug)]
pub struct TextUnit {
    src: MessageType,
    tgt: MessageType,
}

impl TextUnit {
    pub closed spec fn source(&self) -> MessageType {
        self.src
    }

    pub closed spec fn target(&self) -> MessageType {
        self.tgt
    }

    /// Pairs `src` with `tgt`; fails when one is a single message and the
    /// other a group.
    pub fn new(src: MessageType, tgt: MessageType) -> (r: Result<TextUnit, MessageError>)
        ensures
            match r {
                Ok(u) => same_shape(src, tgt) && u.source() == src && u.target() == tgt,
                Err(e) => !same_shape(src, tgt) && e == MessageError::ShapeMismatch,
            },
    {
        let same = match (&src, &tgt) {
            (MessageType::SINGLE(_), MessageType::SINGLE(_)) => true,
            (MessageType::GROUP(_), MessageType::GROUP(_)) => true,
            _ => false,
        };
        if same {
            Ok(TextUnit { src, tgt })
        } else {
            Err(MessageError::ShapeMismatch)
        }
    }

    /// The source side.
    pub fn src(&self) -> (r: &MessageType)
        ensures
            *r == self.source(),
    {
        &self.src
    }

    /// The target side.
    pub fn tgt(&self) -> (r: &MessageType)
        ensures
            *r == self.target(),
    {
        &self.tgt
    }
}

} // verus!
