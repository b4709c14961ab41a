//! The data model of the graph: parts of speech, senses, relations,
//! pronunciations and synsets, together with their specification-level views
//! and verified deep cloning.
use crate::glosstag::{Gloss, GlossV};
use crate::keys::WNKey;
use crate::links::{Link, LinkV};
use crate::wordnet::WordNetLoadError;
use vstd::prelude::*;

verus! {

/// A type whose clone is known to keep the whole value, field by field.
pub trait DeepClone: Sized + DeepView {
    fn deep_clone(&self) -> (r: Self)
        ensures
            r.deep_view() == self.deep_view(),
    ;
}

impl DeepClone for String {
    fn deep_clone(&self) -> (r: Self)
        ensures
            r.deep_view() == self.deep_view(),
    {
        self.clone()
    }
}

impl DeepClone for WNKey {
    fn deep_clone(&self) -> (r: Self)
        ensures
            r.deep_view() == self.deep_view(),
    {
        *self
    }
}

impl<A: DeepClone, B: DeepClone> DeepClone for (A, B) {
    fn deep_clone(&self) -> (r: Self)
        ensures
            r.deep_view() == self.deep_view(),
    {
        (self.0.deep_clone(), self.1.deep_clone())
    }
}

impl<T: DeepClone> DeepClone for Option<T> {
    fn deep_clone(&self) -> (r: Self)
        ensures
            r.deep_view() == self.deep_view(),
    {
        match self {
            Some(x) => Some(x.deep_clone()),
            None => None,
        }
    }
}

impl<T: DeepClone> DeepClone for Vec<T> {
    fn deep_clone(&self) -> (r: Self)
        ensures
            r.deep_view() == self.deep_view(),
    {
        let mut out: Vec<T> = Vec::new();
        let mut i: usize = 0;
        while i < self.len()
            invariant
                i <= self.len(),
                out.len() == i,
                forall|j: int| 0 <= j < i ==> out.deep_view()[j] == self.deep_view()[j],
            decreases self.len() - i,
        {
            out.push(self[i].deep_clone());
            i += 1;
        }
        proof {
            assert(out.deep_view() =~= self.deep_view());
        }
        out
    }
}

impl DeepView for WNKey {
    type V = WNKey;

    open spec fn deep_view(&self) -> WNKey {
        *self
    }
}

/// A part of speech of a synset.
#[derive(Clone, Copy, Debug, PartialEq, Eq, Structural, Hash)]
pub enum PartOfSpeech {
    Noun,
    Verb,
    Adjective,
    Adverb,
    AdjectiveSatellite,
    Other,
}

/// The single letter that writes each part of speech.
pub open spec fn pos_letter(p: PartOfSpeech) -> char {
    match p {
        PartOfSpeech::Noun => 'n',
        PartOfSpeech::Verb => 'v',
        PartOfSpeech::Adjective => 'a',
        PartOfSpeech::Adverb => 'r',
        PartOfSpeech::AdjectiveSatellite => 's',
        PartOfSpeech::Other => 'x',
    }
}

/// The part of speech written by a one-letter string, if any.
pub open spec fn pos_of_letter(s: Seq<char>) -> Option<PartOfSpeech> {
    if s.len() != 1 {
        None
    } else if s[0] == 'n' {
        Some(PartOfSpeech::Noun)
    } else if s[0] == 'v' {
        Some(PartOfSpeech::Verb)
    } else if s[0] == 'a' {
        Some(PartOfSpeech::Adjective)
    } else if s[0] == 'r' {
        Some(PartOfSpeech::Adverb)
    } else if s[0] == 's' {
        Some(PartOfSpeech::AdjectiveSatellite)
    } else if s[0] == 'x' {
        Some(PartOfSpeech::Other)
    } else {
        None
    }
}

/// The long, human-readable name of each part of speech.
pub open spec fn pos_long(p: PartOfSpeech) -> Seq<char> {
    match p {
        PartOfSpeech::Noun => "noun"@,
        PartOfSpeech::Verb => "verb"@,
        PartOfSpeech::Adjective => "adjective"@,
        PartOfSpeech::Adverb => "adverb"@,
        PartOfSpeech::AdjectiveSatellite => "adjective_satellite"@,
        PartOfSpeech::Other => "other"@,
    }
}

/// The letters and the parts of speech they write correspond one to one.
pub proof fn lemma_pos_letter_round_trip(p: PartOfSpeech)
    ensures
        pos_of_letter(seq![pos_letter(p)]) == Some(p),
{
}

impl PartOfSpeech {
    /// Reads a part of speech from its one-letter form.
    pub fn from_str(s: &str) -> (r: Result<PartOfSpeech, WordNetLoadError>)
        ensures
            pos_of_letter(s@) matches Some(p) ==> (r matches Ok(q) && q == p),
            pos_of_letter(s@) is None ==> (r matches Err(e) && e is Schema),
    {
        if s.unicode_len() != 1 {
            return Err(WordNetLoadError::Schema("Bad part of speech value"));
        }
        let c = s.get_char(0);
        if c == 'n' {
            Ok(PartOfSpeech::Noun)
        } else if c == 'v' {
            Ok(PartOfSpeech::Verb)
        } else if c == 'a' {
            Ok(PartOfSpeech::Adjective)
        } else if c == 'r' {
            Ok(PartOfSpeech::Adverb)
        } else if c == 's' {
            Ok(PartOfSpeech::AdjectiveSatellite)
        } else if c == 'x' {
            Ok(PartOfSpeech::Other)
        } else {
            Err(WordNetLoadError::Schema("Bad part of speech value"))
        }
    }

    /// Writes the one-letter form.
    pub fn to_string(&self) -> (r: String)
        ensures
            r@ == seq![pos_letter(*self)],
    {
        proof {
            reveal_strlit("n");
            reveal_strlit("v");
            reveal_strlit("a");
            reveal_strlit("r");
            reveal_strlit("s");
            reveal_strlit("x");
        }
        let lit = match self {
            PartOfSpeech::Noun => "n",
            PartOfSpeech::Verb => "v",
            PartOfSpeech::Adjective => "a",
            PartOfSpeech::Adverb => "r",
            PartOfSpeech::AdjectiveSatellite => "s",
            PartOfSpeech::Other => "x",
        };
        proof {
            assert(lit@ =~= seq![pos_letter(*self)]);
        }
        String::from_str(lit)
    }

    /// The long name of the part of speech.
    pub fn as_long_string(&self) -> (r: &'static str)
        ensures
            r@ == pos_long(*self),
    {
        match self {
            PartOfSpeech::Noun => "noun",
            PartOfSpeech::Verb => "verb",
            PartOfSpeech::Adjective => "adjective",
            PartOfSpeech::Adverb => "adverb",
            PartOfSpeech::AdjectiveSatellite => "adjective_satellite",
            PartOfSpeech::Other => "other",
        }
    }
}

/// A pronunciation of a lemma, with an optional dialect tag.
pub struct Pronunciation {
    pub value: String,
    pub variety: Option<String>,
}

#[verifier::ext_equal]
pub struct PronunciationV {
    pub value: Seq<char>,
    pub variety: Option<Seq<char>>,
}

impl DeepView for Pronunciation {
    type V = PronunciationV;

    open spec fn deep_view(&self) -> PronunciationV {
        PronunciationV { value: self.value@, variety: self.variety.deep_view() }
    }
}

impl DeepClone for Pronunciation {
    fn deep_clone(&self) -> (r: Self)
        ensures
            r.deep_view() == self.deep_view(),
    {
        let r = Pronunciation { value: self.value.deep_clone(), variety: self.variety.deep_clone() };
        proof {
            assert(r.deep_view() =~= self.deep_view());
        }
        r
    }
}

/// One lemma-in-synset pairing.
pub struct Sense {
    pub lemma: String,
    pub language: String,
    pub forms: Vec<String>,
    pub sense_key: Option<String>,
    pub subcats: Vec<String>,
    pub subcat_refs: Vec<String>,
    pub importance: Option<u32>,
    pub pronunciations: Vec<Pronunciation>,
    pub entry_no: u32,
}

#[verifier::ext_equal]
pub struct SenseV {
    pub lemma: Seq<char>,
    pub language: Seq<char>,
    pub forms: Seq<Seq<char>>,
    pub sense_key: Option<Seq<char>>,
    pub subcats: Seq<Seq<char>>,
    pub subcat_refs: Seq<Seq<char>>,
    pub importance: Option<u32>,
    pub pronunciations: Seq<PronunciationV>,
    pub entry_no: u32,
}

impl DeepView for Sense {
    type V = SenseV;

    open spec fn deep_view(&self) -> SenseV {
        SenseV {
            lemma: self.lemma@,
            language: self.language@,
            forms: self.forms.deep_view(),
            sense_key: self.sense_key.deep_view(),
            subcats: self.subcats.deep_view(),
            subcat_refs: self.subcat_refs.deep_view(),
            importance: self.importance,
            pronunciations: self.pronunciations.deep_view(),
            entry_no: self.entry_no,
        }
    }
}

impl DeepClone for Sense {
    fn deep_clone(&self) -> (r: Self)
        ensures
            r.deep_view() == self.deep_view(),
    {
        let r = Sense {
            lemma: self.lemma.deep_clone(),
            language: self.language.deep_clone(),
            forms: self.forms.deep_clone(),
            sense_key: self.sense_key.deep_clone(),
            subcats: self.subcats.deep_clone(),
            subcat_refs: self.subcat_refs.deep_clone(),
            importance: self.importance,
            pronunciations: self.pronunciations.deep_clone(),
            entry_no: self.entry_no,
        };
        proof {
            assert(r.deep_view() =~= self.deep_view());
        }
        r
    }
}

/// A typed edge of the graph; the source and target words are present only
/// on edges that came from sense-level relations.
pub struct Relation {
    pub src_word: Option<String>,
    pub trg_word: Option<String>,
    pub rel_type: String,
    pub target: String,
}

#[verifier::ext_equal]
pub struct RelationV {
    pub src_word: Option<Seq<char>>,
    pub trg_word: Option<Seq<char>>,
    pub rel_type: Seq<char>,
    pub target: Seq<char>,
}

impl DeepView for Relation {
    type V = RelationV;

    open spec fn deep_view(&self) -> RelationV {
        RelationV {
            src_word: self.src_word.deep_view(),
            trg_word: self.trg_word.deep_view(),
            rel_type: self.rel_type@,
            target: self.target@,
        }
    }
}

impl DeepClone for Relation {
    fn deep_clone(&self) -> (r: Self)
        ensures
            r.deep_view() == self.deep_view(),
    {
        let r = Relation {
            src_word: self.src_word.deep_clone(),
            trg_word: self.trg_word.deep_clone(),
            rel_type: self.rel_type.deep_clone(),
            target: self.target.deep_clone(),
        };
        proof {
            assert(r.deep_view() =~= self.deep_view());
        }
        r
    }
}

/// One meaning, with its senses, text, edges and everything the fusion
/// passes attach to it.
pub struct Synset {
    pub definition: String,
    pub examples: Vec<String>,
    pub lemmas: Vec<Sense>,
    pub id: WNKey,
    pub ili: String,
    pub pos: PartOfSpeech,
    pub subject: String,
    pub relations: Vec<Relation>,
    pub old_keys: Vec<(String, Vec<String>)>,
    pub gloss: Option<Vec<Gloss>>,
    pub foreign: Vec<(String, Vec<String>)>,
    pub links: Vec<Link>,
}

#[verifier::ext_equal]
pub struct SynsetV {
    pub definition: Seq<char>,
    pub examples: Seq<Seq<char>>,
    pub lemmas: Seq<SenseV>,
    pub id: WNKey,
    pub ili: Seq<char>,
    pub pos: PartOfSpeech,
    pub subject: Seq<char>,
    pub relations: Seq<RelationV>,
    pub old_keys: Seq<(Seq<char>, Seq<Seq<char>>)>,
    pub gloss: Option<Seq<GlossV>>,
    pub foreign: Seq<(Seq<char>, Seq<Seq<char>>)>,
    pub links: Seq<LinkV>,
}

impl DeepView for Synset {
    type V = SynsetV;

    open spec fn deep_view(&self) -> SynsetV {
        SynsetV {
            definition: self.definition@,
            examples: self.examples.deep_view(),
            lemmas: self.lemmas.deep_view(),
            id: self.id,
            ili: self.ili@,
            pos: self.pos,
            subject: self.subject@,
            relations: self.relations.deep_view(),
            old_keys: self.old_keys.deep_view(),
            gloss: self.gloss.deep_view(),
            foreign: self.foreign.deep_view(),
            links: self.links.deep_view(),
        }
    }
}

impl DeepClone for Synset {
    fn deep_clone(&self) -> (r: Self)
        ensures
            r.deep_view() == self.deep_view(),
    {
        let r = Synset {
            definition: self.definition.deep_clone(),
            examples: self.examples.deep_clone(),
            lemmas: self.lemmas.deep_clone(),
            id: self.id,
            ili: self.ili.deep_clone(),
            pos: self.pos,
            subject: self.subject.deep_clone(),
            relations: self.relations.deep_clone(),
            old_keys: self.old_keys.deep_clone(),
            gloss: self.gloss.deep_clone(),
            foreign: self.foreign.deep_clone(),
            links: self.links.deep_clone(),
        };
        proof {
            assert(r.deep_view() =~= self.deep_view());
        }
        r
    }
}

} // verus!
