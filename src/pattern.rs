//! Placeholders, literal text, and the patterns built from them.

use vstd::prelude::*;
use vstd::string::*;

use crate::error::MessageError;
use crate::selector::PHValsMap;

verus! {

/// What kind of value a placeholder stands for. `OTHER` carries a free-form
/// tag for kinds beyond the known ones.
#[allow(non_camel_case_types)]
#[derive(Clone, Debug, PartialEq, Eq, Hash)]
pub enum PlaceholderType {
    UNKNOWN,
    GENDER,
    PLURAL,
    OTHER(String),
}

/// Advisory facts about a placeholder type.
#[derive(Clone, Copy, Debug, PartialEq, Eq)]
pub struct PHTypeAttributes {
    /// Values of the type come from a fixed, enumerated set.
    pub enumerated: bool,
}

/// The built-in side table of placeholder type facts: gender and plural
/// values are enumerated. Each type occurs once.
pub fn ph_type_attrs_map() -> (r: Vec<(PlaceholderType, PHTypeAttributes)>)
    ensures
        r@ == seq![
            (PlaceholderType::GENDER, PHTypeAttributes { enumerated: true }),
            (PlaceholderType::PLURAL, PHTypeAttributes { enumerated: true }),
        ],
{
    let mut m: Vec<(PlaceholderType, PHTypeAttributes)> = Vec::new();
    m.push((PlaceholderType::GENDER, PHTypeAttributes { enumerated: true }));
    m.push((PlaceholderType::PLURAL, PHTypeAttributes { enumerated: true }));
    assert(m@ =~= seq![
        (PlaceholderType::GENDER, PHTypeAttributes { enumerated: true }),
        (PlaceholderType::PLURAL, PHTypeAttributes { enumerated: true }),
    ]);
    m
}

/// A named, typed slot in a pattern. `id` is the key its value is looked up
/// by; without a default text the value must be supplied when rendering.
#[derive(Clone, Debug)]
pub struct Placeholder {
    pub id: String,
    pub ph_type: PlaceholderType,
    pub default_text_val: Option<String>,
}

impl Placeholder {
    /// The placeholder written as `{id}`.
    pub fn to_string(&self) -> (r: String)
        ensures
            r@ == seq!['{'] + self.id@ + seq!['}'],
    {
        proof {
            reveal_strlit("{");
            reveal_strlit("}");
        }
        let mut out = String::from_str("{");
        out.append(self.id.as_str());
        out.append("}");
        out
    }
}

/// A literal piece of text, rendered verbatim.
#[derive(Clone, Debug)]
pub struct TextPart {
    pub text: String,
}

impl TextPart {
    /// The text itself.
    pub fn to_string(&self) -> (r: String)
        ensures
            r@ == self.text@,
    {
        self.text.clone()
    }
}

/// One piece of a pattern.
#[allow(non_camel_case_types)]
#[derive(Clone, Debug)]
pub enum PatternPart {
    TEXTPART(TextPart),
    PLACEHOLDER(Placeholder),
}

/// How a part is written out for display: text as is, a placeholder as `{id}`.
pub open spec fn part_text(p: PatternPart) -> Seq<char> {
    match p {
        PatternPart::TEXTPART(t) => t.text@,
        PatternPart::PLACEHOLDER(ph) => seq!['{'] + ph.id@ + seq!['}'],
    }
}

/// The display forms of the parts, one after another.
pub open spec fn parts_text(s: Seq<PatternPart>) -> Seq<char>
    decreases s.len(),
{
    if s.len() == 0 {
        Seq::empty()
    } else {
        parts_text(s.drop_last()) + part_text(s.last())
    }
}

/// What a part renders to under `vals`: literal text, else the supplied
/// value, else the default text; `None` when a placeholder has neither.
pub open spec fn part_value(p: PatternPart, vals: Map<Seq<char>, Seq<char>>) -> Option<Seq<char>> {
    match p {
        PatternPart::TEXTPART(t) => Some(t.text@),
        PatternPart::PLACEHOLDER(ph) => if vals.contains_key(ph.id@) {
            Some(vals[ph.id@])
        } else {
            match ph.default_text_val {
                Some(d) => Some(d@),
                None => None,
            }
        },
    }
}

/// Rendering a sequence of parts: their values concatenated in order, with no
/// separators, or the id of the first placeholder that has no value.
pub open spec fn render_parts(s: Seq<PatternPart>, vals: Map<Seq<char>, Seq<char>>) -> Result<
    Seq<char>,
    Seq<char>,
>
    decreases s.len(),
{
    if s.len() == 0 {
        Ok(Seq::empty())
    } else {
        match render_parts(s.drop_last(), vals) {
            Err(id) => Err(id),
            Ok(text) => match part_value(s.last(), vals) {
                Some(v) => Ok(text + v),
                None => Err(
                    match s.last() {
                        PatternPart::PLACEHOLDER(ph) => ph.id@,
                        PatternPart::TEXTPART(t) => t.text@,
                    },
                ),
            },
        }
    }
}

/// Once a prefix of the parts fails to render, the whole fails the same way.
proof fn lemma_render_error_persists(s: Seq<PatternPart>, k: int, vals: Map<Seq<char>, Seq<char>>)
    requires
        0 <= k <= s.len(),
        render_parts(s.take(k), vals) is Err,
    ensures
        render_parts(s, vals) == render_parts(s.take(k), vals),
    decreases s.len(),
{
    if k == s.len() {
        assert(s.take(k) =~= s);
    } else {
        assert(s.drop_last().take(k) =~= s.take(k));
        lemma_render_error_persists(s.drop_last(), k, vals);
    }
}

/// A pattern with a placeholder that has neither a default text nor a
/// supplied value fails to render.
pub proof fn lemma_missing_value_fails(s: Seq<PatternPart>, vals: Map<Seq<char>, Seq<char>>, i: int)
    requires
        0 <= i < s.len(),
        s[i] matches PatternPart::PLACEHOLDER(ph) && ph.default_text_val is None && !vals.contains_key(
            ph.id@,
        ),
    ensures
        render_parts(s, vals) is Err,
    decreases s.len(),
{
    if i < s.len() - 1 {
        assert(s.drop_last()[i] == s[i]);
        lemma_missing_value_fails(s.drop_last(), vals, i);
    }
}

/// Supplying a placeholder's value renders it verbatim after what precedes it.
pub proof fn lemma_supplied_value_rendered(
    s: Seq<PatternPart>,
    vals: Map<Seq<char>, Seq<char>>,
    ph: Placeholder,
)
    requires
        render_parts(s, vals) is Ok,
        vals.contains_key(ph.id@),
    ensures
        render_parts(s.push(PatternPart::PLACEHOLDER(ph)), vals) == Ok::<Seq<char>, Seq<char>>(
            render_parts(s, vals)->Ok_0 + vals[ph.id@],
        ),
{
    assert(s.push(PatternPart::PLACEHOLDER(ph)).drop_last() =~= s);
}

/// An ordered sequence of parts forming one message template.
#[derive(Clone, Debug)]
pub struct MessagePattern {
    pub parts: Vec<PatternPart>,
}

impl PatternPart {
    /// The part written for display: text as is, a placeholder as `{id}`.
    pub fn to_string(&self) -> (r: String)
        ensures
            r@ == part_text(*self),
    {
        match self {
            PatternPart::TEXTPART(t) => t.to_string(),
            PatternPart::PLACEHOLDER(ph) => ph.to_string(),
        }
    }
}

impl MessagePattern {
    /// The pattern written as `[...]`, its parts' display forms in order.
    pub fn to_string(&self) -> (r: String)
        ensures
            r@ == seq!['['] + parts_text(self.parts@) + seq![']'],
    {
        proof {
            reveal_strlit("[");
        }
        let n = self.parts.len();
        let mut out = String::from_str("[");
        let mut i: usize = 0;
        while i < n
            invariant
                n == self.parts.len(),
                i <= n,
                out@ == seq!['['] + parts_text(self.parts@.take(i as int)),
            decreases n - i,
        {
            let piece = self.parts[i].to_string();
            out.append(piece.as_str());
            proof {
                let t = self.parts@.take(i + 1);
                assert(t.drop_last() =~= self.parts@.take(i as int));
                assert(out@ =~= seq!['['] + parts_text(t));
            }
            i = i + 1;
        }
        proof {
            reveal_strlit("]");
        }
        out.append("]");
        assert(self.parts@.take(n as int) =~= self.parts@);
        out
    }

    /// Renders the pattern: each part in order, a placeholder by the value
    /// that `vals` holds for its id, else by its default text. Fails with
    /// the id of the first placeholder that has neither.
    pub fn render(&self, vals: &PHValsMap) -> (r: Result<String, MessageError>)
        requires
            vals.well_formed(),
        ensures
            match r {
                Ok(text) => render_parts(self.parts@, vals@) == Ok::<Seq<char>, Seq<char>>(text@),
                Err(MessageError::MissingValue(id)) => render_parts(self.parts@, vals@) == Err::<
                    Seq<char>,
                    Seq<char>,
                >(id@),
                Err(_) => false,
            },
    {
        let n = self.parts.len();
        let mut out = String::new();
        let mut i: usize = 0;
        assert(self.parts@.take(0) =~= Seq::<PatternPart>::empty());
        while i < n
            invariant
                n == self.parts.len(),
                i <= n,
                vals.well_formed(),
                render_parts(self.parts@.take(i as int), vals@) == Ok::<Seq<char>, Seq<char>>(out@),
            decreases n - i,
        {
            let ghost t = self.parts@.take(i + 1);
            proof {
                assert(t.drop_last() =~= self.parts@.take(i as int));
                assert(t.last() == self.parts@[i as int]);
            }
            match &self.parts[i] {
                PatternPart::TEXTPART(tp) => {
                    out.append(tp.text.as_str());
                },
                PatternPart::PLACEHOLDER(ph) => {
                    match vals.get(&ph.id) {
                        Some(v) => {
                            out.append(v.as_str());
                        },
                        None => {
                            match &ph.default_text_val {
                                Some(d) => {
                                    out.append(d.as_str());
                                },
                                None => {
                                    proof {
                                        lemma_render_error_persists(self.parts@, i + 1, vals@);
                                    }
                                    return Err(MessageError::MissingValue(ph.id.clone()));
                                },
                            }
                        },
                    }
                },
            }
            i = i + 1;
        }
        assert(self.parts@.take(n as int) =~= self.parts@);
        Ok(out)
    }
}

} // verus!
