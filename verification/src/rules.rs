use vstd::prelude::*;
use vstd::utf8::encode_utf8;

verus! {

/// The length in bytes of the UTF-8 encoding of a character sequence, as
/// `str::len` reports it.
pub open spec fn byte_len(s: Seq<char>) -> nat {
    (encode_utf8(s).len() as usize) as nat
}

/// How one kind of string literal is delimited.
#[derive(Debug, Clone)]
pub struct StringDelimiter {
    pub open: String,
    pub close: String,
    /// A backslash escapes the character after it.
    pub escape: bool,
    /// The literal may span newlines.
    pub multiline: bool,
    /// The delimiter also opens non-literal text (Rust lifetimes), so it only
    /// opens a literal where what follows looks like a character literal.
    pub char_literal: bool,
}

/// The mathematical value of a [`StringDelimiter`].
pub struct DelimModel {
    pub open: Seq<char>,
    pub close: Seq<char>,
    pub escape: bool,
    pub multiline: bool,
    pub char_literal: bool,
}

impl View for StringDelimiter {
    type V = DelimModel;

    open spec fn view(&self) -> DelimModel {
        DelimModel {
            open: self.open@,
            close: self.close@,
            escape: self.escape,
            multiline: self.multiline,
            char_literal: self.char_literal,
        }
    }
}

/// The value the `escape` flag takes when a definition leaves it out.
pub fn default_true() -> (b: bool)
    ensures
        b,
{
    true
}

/// The comment and string syntax of one language.
#[derive(Debug, Clone)]
pub struct LanguageRules {
    pub name: String,
    pub extensions: Vec<String>,
    pub line_comments: Vec<String>,
    pub block_comments: Vec<[String; 2]>,
    pub strings: Vec<StringDelimiter>,
    /// Rust raw strings (`r"..."`, `r#"..."#`, ...) are recognised.
    pub raw_strings: bool,
}

/// The mathematical value of [`LanguageRules`].
pub struct RulesModel {
    pub name: Seq<char>,
    pub extensions: Seq<Seq<char>>,
    pub line_comments: Seq<Seq<char>>,
    pub block_comments: Seq<(Seq<char>, Seq<char>)>,
    pub strings: Seq<DelimModel>,
    pub raw_strings: bool,
}

impl View for LanguageRules {
    type V = RulesModel;

    open spec fn view(&self) -> RulesModel {
        RulesModel {
            name: self.name@,
            extensions: self.extensions@.map_values(|s: String| s@),
            line_comments: self.line_comments@.map_values(|s: String| s@),
            block_comments: self.block_comments@.map_values(|p: [String; 2]| (p@[0]@, p@[1]@)),
            strings: self.strings@.map_values(|d: StringDelimiter| d@),
            raw_strings: self.raw_strings,
        }
    }
}

impl RulesModel {
    /// The openers of the block comments, in definition order.
    pub open spec fn block_openers(self) -> Seq<Seq<char>> {
        self.block_comments.map_values(|p: (Seq<char>, Seq<char>)| p.0)
    }

    /// The openers of the string literals, in definition order.
    pub open spec fn string_openers(self) -> Seq<Seq<char>> {
        self.strings.map_values(|d: DelimModel| d.open)
    }

    /// Every token the lexer can take from these rules consumes at least one
    /// character: no block comment and no string literal has both an empty
    /// opener and an empty closer (with one, lexing would never end).
    pub open spec fn always_advances(self) -> bool {
        &&& forall|i: int|
            0 <= i < self.block_comments.len() ==> (#[trigger] self.block_comments[i]).0.len() > 0
                || self.block_comments[i].1.len() > 0
        &&& forall|i: int|
            0 <= i < self.strings.len() ==> (#[trigger] self.strings[i]).open.len() > 0
                || self.strings[i].close.len() > 0
    }
}

impl LanguageRules {
    /// Whether every token lexed by these rules consumes at least one
    /// character; rules for which this fails would make lexing loop forever.
    pub fn advances_on_every_input(&self) -> (b: bool)
        ensures
            b == self@.always_advances(),
    {
        let mut i: usize = 0;
        while i < self.block_comments.len()
            invariant
                i <= self.block_comments@.len(),
                self@.block_comments.len() == self.block_comments@.len(),
                forall|j: int|
                    0 <= j < i ==> (#[trigger] self@.block_comments[j]).0.len() > 0
                        || self@.block_comments[j].1.len() > 0,
            decreases self.block_comments@.len() - i,
        {
            let pair = &self.block_comments[i];
            assert(self@.block_comments[i as int] == (pair@[0]@, pair@[1]@));
            if pair[0].as_str().is_empty() && pair[1].as_str().is_empty() {
                return false;
            }
            i += 1;
        }
        let mut k: usize = 0;
        while k < self.strings.len()
            invariant
                k <= self.strings@.len(),
                self@.strings.len() == self.strings@.len(),
                self@.block_comments.len() == self.block_comments@.len(),
                forall|j: int|
                    0 <= j < self@.block_comments.len() ==> (#[trigger] self@.block_comments[j]).0.len()
                        > 0 || self@.block_comments[j].1.len() > 0,
                forall|j: int|
                    0 <= j < k ==> (#[trigger] self@.strings[j]).open.len() > 0
                        || self@.strings[j].close.len() > 0,
            decreases self.strings@.len() - k,
        {
            let d = &self.strings[k];
            assert(self@.strings[k as int] == d@);
            if d.open.as_str().is_empty() && d.close.as_str().is_empty() {
                return false;
            }
            k += 1;
        }
        true
    }
}

/// A set of language definitions, as a configuration file holds them.
#[derive(Debug)]
pub struct LanguageConfig {
    pub language: Vec<LanguageRules>,
}

/// The language each extension selects, given definitions in order: every
/// language claims its extensions, a later definition taking an extension
/// over from an earlier one.
pub open spec fn index_of(langs: Seq<RulesModel>) -> Map<Seq<char>, RulesModel>
    decreases langs.len(),
{
    if langs.len() == 0 {
        Map::empty()
    } else {
        let l = langs.last();
        index_of(langs.drop_last()).union_prefer_right(
            Map::new(|e: Seq<char>| l.extensions.contains(e), |e: Seq<char>| l),
        )
    }
}

/// The values of a sequence of language definitions.
pub open spec fn models(langs: Seq<LanguageRules>) -> Seq<RulesModel> {
    langs.map_values(|l: LanguageRules| l@)
}

/// Language definitions looked up by file extension.
pub struct LanguageIndex {
    languages: Vec<LanguageRules>,
    /// Each extension with the position of its language, in insertion order.
    keys: Vec<(String, usize)>,
}

/// The map that inserting `keys` in order builds, a later insertion
/// replacing an earlier one.
pub open spec fn inserted(keys: Seq<(String, usize)>, langs: Seq<LanguageRules>) -> Map<
    Seq<char>,
    RulesModel,
>
    decreases keys.len(),
{
    if keys.len() == 0 {
        Map::empty()
    } else {
        inserted(keys.drop_last(), langs).insert(keys.last().0@, langs[keys.last().1 as int]@)
    }
}

proof fn lemma_inserted_lookup(keys: Seq<(String, usize)>, langs: Seq<LanguageRules>, e: Seq<char>)
    ensures
        inserted(keys, langs).contains_key(e) <==> exists|k: int|
            0 <= k < keys.len() && (#[trigger] keys[k]).0@ == e,
        forall|k: int|
            0 <= k < keys.len() && (#[trigger] keys[k]).0@ == e && (forall|j: int|
                k < j < keys.len() ==> (#[trigger] keys[j]).0@ != e) ==> inserted(keys, langs)[e]
                == langs[keys[k].1 as int]@,
    decreases keys.len(),
{
    if keys.len() > 0 {
        let prev = keys.drop_last();
        lemma_inserted_lookup(prev, langs, e);
        if keys.last().0@ != e {
            assert forall|k: int| 0 <= k < prev.len() && (#[trigger] prev[k]).0@ == e implies keys[k].0@ == e by {}
            assert forall|k: int| 0 <= k < keys.len() && (#[trigger] keys[k]).0@ == e implies prev[k].0@ == e by {}
        } else {
            assert(keys[keys.len() - 1].0@ == e);
        }
    }
}

impl LanguageIndex {
    #[verifier::type_invariant]
    spec fn positions_valid(self) -> bool {
        forall|k: int| 0 <= k < self.keys@.len() ==> (#[trigger] self.keys@[k]).1 < self.languages@.len()
    }

    /// The language each indexed extension selects.
    pub closed spec fn as_map(self) -> Map<Seq<char>, RulesModel> {
        inserted(self.keys@, self.languages@)
    }

    /// The language definition that `ext` selects, if any.
    pub fn get(&self, ext: &String) -> (r: Option<&LanguageRules>)
        ensures
            match r {
                Some(l) => self@.contains_key(ext@) && l@ == self@[ext@],
                None => !self@.contains_key(ext@),
            },
    {
        proof {
            use_type_invariant(self);
            lemma_inserted_lookup(self.keys@, self.languages@, ext@);
        }
        let mut k = self.keys.len();
        while k > 0
            invariant
                k <= self.keys@.len(),
                forall|j: int| k <= j < self.keys@.len() ==> (#[trigger] self.keys@[j]).0@ != ext@,
            decreases k,
        {
            k -= 1;
            if self.keys[k].0 == *ext {
                proof {
                    use_type_invariant(self);
                    lemma_inserted_lookup(self.keys@, self.languages@, ext@);
                    assert(self.keys@[k as int].0@ == ext@);
                }
                return Some(&self.languages[self.keys[k].1]);
            }
        }
        proof {
            lemma_inserted_lookup(self.keys@, self.languages@, ext@);
        }
        None
    }
}

impl View for LanguageIndex {
    type V = Map<Seq<char>, RulesModel>;

    open spec fn view(&self) -> Map<Seq<char>, RulesModel> {
        self.as_map()
    }
}

/// Indexes language definitions by the extensions they claim; where two
/// claim the same extension, the later one wins.
pub fn build_index(rules: Vec<LanguageRules>) -> (index: LanguageIndex)
    ensures
        index@ == index_of(models(rules@)),
{
    let ghost ms = models(rules@);
    let mut keys: Vec<(String, usize)> = Vec::new();
    let mut li: usize = 0;
    while li < rules.len()
        invariant
            li <= rules@.len(),
            ms == models(rules@),
            inserted(keys@, rules@) == index_of(ms.take(li as int)),
            forall|k: int| 0 <= k < keys@.len() ==> (#[trigger] keys@[k]).1 < li,
        decreases rules@.len() - li,
    {
        let lang = &rules[li];
        let ghost before = inserted(keys@, rules@);
        let ghost m = ms[li as int];
        assert(m == lang@);
        let mut x: usize = 0;
        while x < lang.extensions.len()
            invariant
                li < rules@.len(),
                lang == rules@[li as int],
                m == lang@,
                x <= lang.extensions@.len(),
                inserted(keys@, rules@) =~= before.union_prefer_right(
                    Map::new(
                        |e: Seq<char>| m.extensions.take(x as int).contains(e),
                        |e: Seq<char>| m,
                    ),
                ),
                forall|k: int| 0 <= k < keys@.len() ==> (#[trigger] keys@[k]).1 <= li,
            decreases lang.extensions@.len() - x,
        {
            let ext = lang.extensions[x].clone();
            let ghost prev = keys@;
            keys.push((ext, li));
            assert(keys@.drop_last() == prev);
            assert(m.extensions[x as int] == ext@);
            assert(keys@.last() == (ext, li));
            assert(rules@[li as int]@ == m);
            assert(inserted(keys@, rules@) == inserted(prev, rules@).insert(ext@, m));
            assert forall|e: Seq<char>|
                #[trigger] m.extensions.take(x + 1).contains(e) == (m.extensions.take(
                    x as int,
                ).contains(e) || e == ext@) by {
                let t1 = m.extensions.take(x + 1);
                let t0 = m.extensions.take(x as int);
                if t0.contains(e) {
                    let j = choose|j: int| 0 <= j < t0.len() && t0[j] == e;
                    assert(t1[j] == e);
                }
                if e == ext@ {
                    assert(t1[x as int] == e);
                }
                if t1.contains(e) {
                    let j = choose|j: int| 0 <= j < t1.len() && t1[j] == e;
                    if j < x {
                        assert(t0[j] == e);
                    }
                }
            }
            x += 1;
        }
        assert(m.extensions.take(x as int) =~= m.extensions);
        assert(ms.take(li + 1).drop_last() =~= ms.take(li as int));
        li += 1;
    }
    assert(ms.take(li as int) =~= ms);
    LanguageIndex { languages: rules, keys }
}

/// Definitions added after others take over the extensions they claim and
/// leave the rest as they were: indexing `base` then `extra` selects, for
/// each extension, `extra`'s language where it has one and `base`'s
/// otherwise.
pub proof fn lemma_later_definitions_win(base: Seq<RulesModel>, extra: Seq<RulesModel>)
    ensures
        index_of(base + extra) == index_of(base).union_prefer_right(index_of(extra)),
    decreases extra.len(),
{
    if extra.len() == 0 {
        assert(base + extra =~= base);
        assert(index_of(base).union_prefer_right(index_of(extra)) =~= index_of(base));
    } else {
        lemma_later_definitions_win(base, extra.drop_last());
        assert((base + extra).drop_last() =~= base + extra.drop_last());
        assert((base + extra).last() == extra.last());
        assert(index_of(base + extra) =~= index_of(base).union_prefer_right(index_of(extra)));
    }
}

/// Exactly the extensions that some definition claims are indexed.
pub proof fn lemma_indexed_extensions(langs: Seq<RulesModel>, e: Seq<char>)
    ensures
        index_of(langs).contains_key(e) <==> exists|i: int|
            0 <= i < langs.len() && (#[trigger] langs[i]).extensions.contains(e),
    decreases langs.len(),
{
    if langs.len() > 0 {
        let prev = langs.drop_last();
        lemma_indexed_extensions(prev, e);
        if index_of(prev).contains_key(e) {
            let i = choose|i: int| 0 <= i < prev.len() && (#[trigger] prev[i]).extensions.contains(e);
            assert(langs[i] == prev[i]);
        }
        if exists|i: int| 0 <= i < langs.len() && (#[trigger] langs[i]).extensions.contains(e) {
            let i = choose|i: int| 0 <= i < langs.len() && (#[trigger] langs[i]).extensions.contains(e);
            if i < langs.len() - 1 {
                assert(prev[i] == langs[i]);
            }
        }
    }
}

} // verus!
