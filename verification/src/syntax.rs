//! The document tree: fragments, translations, sentences and chapters, and
//! the dictionary resolution pass. The pass walks every sentence's original
//! fragments in order: an inline definition is added to the dictionary only
//! if its word is absent (the first definition wins), and a bare lookup is
//! replaced by the dictionary's meanings if the word is known.

use vstd::prelude::*;

use crate::strmap::StrMap;

verus! {

/// One piece of original-language text: plain text, an inline glossary
/// definition, or a reference to be resolved against the dictionary.
#[derive(Debug, Clone, PartialEq)]
pub enum OrgFragment {
    Simple(String),
    Meaning(String, Vec<String>),
    DictLookup(String),
}

/// Mathematical model of `OrgFragment`.
#[verifier::ext_equal]
pub ghost enum OrgFragV {
    Simple(Seq<char>),
    Meaning(Seq<char>, Seq<Seq<char>>),
    DictLookup(Seq<char>),
}

impl View for OrgFragment {
    type V = OrgFragV;

    open spec fn view(&self) -> OrgFragV {
        match self {
            OrgFragment::Simple(s) => OrgFragV::Simple(s@),
            OrgFragment::Meaning(w, ms) => OrgFragV::Meaning(w@, ms.deep_view()),
            OrgFragment::DictLookup(w) => OrgFragV::DictLookup(w@),
        }
    }
}

impl DeepView for OrgFragment {
    type V = OrgFragV;

    open spec fn deep_view(&self) -> OrgFragV {
        self.view()
    }
}

/// One translation of a sentence: its text and its own attributes.
#[derive(Debug, Clone, PartialEq)]
pub struct Translation {
    pub content: String,
    pub attrs: StrMap<String>,
}

/// Mathematical model of `Translation`.
#[verifier::ext_equal]
pub ghost struct TranslationV {
    pub content: Seq<char>,
    pub attrs: Map<Seq<char>, Seq<char>>,
}

impl View for Translation {
    type V = TranslationV;

    open spec fn view(&self) -> TranslationV {
        TranslationV { content: self.content@, attrs: self.attrs@ }
    }
}

impl DeepView for Translation {
    type V = TranslationV;

    open spec fn deep_view(&self) -> TranslationV {
        self.view()
    }
}

/// One sentence: its label, original fragments, its own attributes, and its
/// translations keyed by label.
#[derive(Debug, Clone, PartialEq)]
pub struct Sentence {
    pub label: String,
    pub original: Vec<OrgFragment>,
    pub orgattrs: StrMap<String>,
    pub translations: StrMap<Translation>,
}

/// Mathematical model of `Sentence`.
#[verifier::ext_equal]
pub ghost struct SentenceV {
    pub label: Seq<char>,
    pub original: Seq<OrgFragV>,
    pub orgattrs: Map<Seq<char>, Seq<char>>,
    pub translations: Map<Seq<char>, TranslationV>,
}

impl View for Sentence {
    type V = SentenceV;

    open spec fn view(&self) -> SentenceV {
        SentenceV {
            label: self.label@,
            original: self.original.deep_view(),
            orgattrs: self.orgattrs@,
            translations: self.translations@,
        }
    }
}

impl DeepView for Sentence {
    type V = SentenceV;

    open spec fn deep_view(&self) -> SentenceV {
        self.view()
    }
}

/// The full parsed document: metadata, dictionary, ordered sentences.
#[derive(Debug, Clone, PartialEq)]
pub struct Chapter {
    pub title: String,
    pub language: String,
    pub tl_languages: Vec<String>,
    pub dictionary: StrMap<Vec<String>>,
    pub sentences: Vec<Sentence>,
    pub attrs: StrMap<String>,
}

/// Mathematical model of `Chapter`.
#[verifier::ext_equal]
pub ghost struct ChapterV {
    pub title: Seq<char>,
    pub language: Seq<char>,
    pub tl_languages: Seq<Seq<char>>,
    pub dictionary: Map<Seq<char>, Seq<Seq<char>>>,
    pub sentences: Seq<SentenceV>,
    pub attrs: Map<Seq<char>, Seq<char>>,
}

impl View for Chapter {
    type V = ChapterV;

    open spec fn view(&self) -> ChapterV {
        ChapterV {
            title: self.title@,
            language: self.language@,
            tl_languages: self.tl_languages.deep_view(),
            dictionary: self.dictionary@,
            sentences: self.sentences.deep_view(),
            attrs: self.attrs@,
        }
    }
}

impl DeepView for Chapter {
    type V = ChapterV;

    open spec fn deep_view(&self) -> ChapterV {
        self.view()
    }
}

/// One resolution step: what the fragment becomes and what the dictionary
/// becomes, as described in the module comment.
pub open spec fn resolve_frag(f: OrgFragV, d: Map<Seq<char>, Seq<Seq<char>>>) -> (
    OrgFragV,
    Map<Seq<char>, Seq<Seq<char>>>,
) {
    match f {
        OrgFragV::Simple(_) => (f, d),
        OrgFragV::Meaning(w, ms) => if d.contains_key(w) {
            (f, d)
        } else {
            (f, d.insert(w, ms))
        },
        OrgFragV::DictLookup(w) => if d.contains_key(w) {
            (OrgFragV::Meaning(w, d[w]), d)
        } else {
            (f, d)
        },
    }
}

/// Resolve a fragment sequence left to right, threading the dictionary.
pub open spec fn resolve_frags(fs: Seq<OrgFragV>, d: Map<Seq<char>, Seq<Seq<char>>>) -> (
    Seq<OrgFragV>,
    Map<Seq<char>, Seq<Seq<char>>>,
)
    decreases fs.len(),
{
    if fs.len() == 0 {
        (fs, d)
    } else {
        let fd = resolve_frag(fs[0], d);
        let rest = resolve_frags(fs.skip(1), fd.1);
        (seq![fd.0] + rest.0, rest.1)
    }
}

/// Resolve one sentence: only its original fragments change.
pub open spec fn resolve_sentence(s: SentenceV, d: Map<Seq<char>, Seq<Seq<char>>>) -> (
    SentenceV,
    Map<Seq<char>, Seq<Seq<char>>>,
) {
    let fd = resolve_frags(s.original, d);
    (SentenceV { original: fd.0, ..s }, fd.1)
}

/// Resolve a sentence sequence left to right, threading the dictionary.
pub open spec fn resolve_sentences(ss: Seq<SentenceV>, d: Map<Seq<char>, Seq<Seq<char>>>) -> (
    Seq<SentenceV>,
    Map<Seq<char>, Seq<Seq<char>>>,
)
    decreases ss.len(),
{
    if ss.len() == 0 {
        (ss, d)
    } else {
        let sd = resolve_sentence(ss[0], d);
        let rest = resolve_sentences(ss.skip(1), sd.1);
        (seq![sd.0] + rest.0, rest.1)
    }
}

/// The resolution pass over a whole chapter.
pub open spec fn spec_process(c: ChapterV) -> ChapterV {
    let sd = resolve_sentences(c.sentences, c.dictionary);
    ChapterV { sentences: sd.0, dictionary: sd.1, ..c }
}

/// `d1` keeps every binding of `d`: nothing in `d` was overwritten.
pub open spec fn dict_extends(
    d1: Map<Seq<char>, Seq<Seq<char>>>,
    d: Map<Seq<char>, Seq<Seq<char>>>,
) -> bool {
    forall|k: Seq<char>|
        #[trigger] d.contains_key(k) ==> d1.contains_key(k) && d1[k] == d[k]
}

/// Every inline definition among `fs` is present in `d`.
pub open spec fn frags_meanings_defined(fs: Seq<OrgFragV>, d: Map<Seq<char>, Seq<Seq<char>>>) -> bool {
    forall|x: int|
        0 <= x < fs.len() ==> (#[trigger] fs[x] matches OrgFragV::Meaning(w, ms)
            ==> d.contains_key(w))
}

/// No lookup among `fs` can be resolved against `d`.
pub open spec fn frags_lookups_unresolved(fs: Seq<OrgFragV>, d: Map<Seq<char>, Seq<Seq<char>>>) -> bool {
    forall|x: int|
        0 <= x < fs.len() ==> (#[trigger] fs[x] matches OrgFragV::DictLookup(w)
            ==> !d.contains_key(w))
}

proof fn lemma_resolve_frags_extends(fs: Seq<OrgFragV>, d: Map<Seq<char>, Seq<Seq<char>>>)
    ensures
        dict_extends(resolve_frags(fs, d).1, d),
    decreases fs.len(),
{
    if fs.len() > 0 {
        let fd = resolve_frag(fs[0], d);
        assert(dict_extends(fd.1, d));
        lemma_resolve_frags_extends(fs.skip(1), fd.1);
        assert forall|k: Seq<char>| #[trigger] d.contains_key(k) implies resolve_frags(
            fs,
            d,
        ).1.contains_key(k) && resolve_frags(fs, d).1[k] == d[k] by {
            assert(fd.1.contains_key(k) && fd.1[k] == d[k]);
        }
    }
}

proof fn lemma_resolve_frags_meanings(fs: Seq<OrgFragV>, d: Map<Seq<char>, Seq<Seq<char>>>)
    ensures
        frags_meanings_defined(resolve_frags(fs, d).0, resolve_frags(fs, d).1),
    decreases fs.len(),
{
    if fs.len() > 0 {
        let fd = resolve_frag(fs[0], d);
        let rest = resolve_frags(fs.skip(1), fd.1);
        lemma_resolve_frags_meanings(fs.skip(1), fd.1);
        lemma_resolve_frags_extends(fs.skip(1), fd.1);
        let out = resolve_frags(fs, d);
        assert forall|x: int|
            0 <= x < out.0.len() implies (#[trigger] out.0[x] matches OrgFragV::Meaning(w, ms)
            ==> out.1.contains_key(w)) by {
            if x == 0 {
                assert(out.0[0] == fd.0);
                match fd.0 {
                    OrgFragV::Meaning(w, _) => {
                        assert(fd.1.contains_key(w));
                        assert(out.1.contains_key(w));
                    },
                    _ => {},
                }
            } else {
                assert(out.0[x] == rest.0[x - 1]);
            }
        }
    }
}

proof fn lemma_resolve_frags_stable(fs: Seq<OrgFragV>, d: Map<Seq<char>, Seq<Seq<char>>>)
    requires
        frags_meanings_defined(fs, d),
        frags_lookups_unresolved(fs, d),
    ensures
        resolve_frags(fs, d).0 == fs,
        resolve_frags(fs, d).1 == d,
    decreases fs.len(),
{
    if fs.len() > 0 {
        let fd = resolve_frag(fs[0], d);
        assert(fs[0] == fs[0]);
        assert(fd.0 == fs[0] && fd.1 == d) by {
            match fs[0] {
                OrgFragV::Meaning(w, _) => {
                    assert(d.contains_key(w));
                },
                OrgFragV::DictLookup(w) => {
                    assert(!d.contains_key(w));
                },
                _ => {},
            }
        }
        assert forall|x: int| 0 <= x < fs.skip(1).len() implies (#[trigger] fs.skip(1)[x] matches
            OrgFragV::Meaning(w, ms) ==> d.contains_key(w)) by {
            assert(fs.skip(1)[x] == fs[x + 1]);
        }
        assert forall|x: int| 0 <= x < fs.skip(1).len() implies (#[trigger] fs.skip(1)[x] matches
            OrgFragV::DictLookup(w) ==> !d.contains_key(w)) by {
            assert(fs.skip(1)[x] == fs[x + 1]);
        }
        lemma_resolve_frags_stable(fs.skip(1), d);
        assert(resolve_frags(fs, d).0 =~= fs);
    }
}

/// Every inline definition in any sentence of `ss` is present in `d`.
pub open spec fn sentences_meanings_defined(ss: Seq<SentenceV>, d: Map<Seq<char>, Seq<Seq<char>>>) -> bool {
    forall|x: int|
        0 <= x < ss.len() ==> frags_meanings_defined(#[trigger] ss[x].original, d)
}

/// No lookup in any sentence of `ss` can be resolved against `d`.
pub open spec fn sentences_lookups_unresolved(ss: Seq<SentenceV>, d: Map<Seq<char>, Seq<Seq<char>>>) -> bool {
    forall|x: int|
        0 <= x < ss.len() ==> frags_lookups_unresolved(#[trigger] ss[x].original, d)
}

proof fn lemma_resolve_sentences_extends(ss: Seq<SentenceV>, d: Map<Seq<char>, Seq<Seq<char>>>)
    ensures
        dict_extends(resolve_sentences(ss, d).1, d),
    decreases ss.len(),
{
    if ss.len() > 0 {
        let sd = resolve_sentence(ss[0], d);
        lemma_resolve_frags_extends(ss[0].original, d);
        lemma_resolve_sentences_extends(ss.skip(1), sd.1);
        assert forall|k: Seq<char>| #[trigger] d.contains_key(k) implies resolve_sentences(
            ss,
            d,
        ).1.contains_key(k) && resolve_sentences(ss, d).1[k] == d[k] by {
            assert(sd.1.contains_key(k) && sd.1[k] == d[k]);
        }
    }
}

proof fn lemma_resolve_sentences_meanings(ss: Seq<SentenceV>, d: Map<Seq<char>, Seq<Seq<char>>>)
    ensures
        sentences_meanings_defined(resolve_sentences(ss, d).0, resolve_sentences(ss, d).1),
    decreases ss.len(),
{
    if ss.len() > 0 {
        let sd = resolve_sentence(ss[0], d);
        let rest = resolve_sentences(ss.skip(1), sd.1);
        lemma_resolve_frags_meanings(ss[0].original, d);
        lemma_resolve_sentences_meanings(ss.skip(1), sd.1);
        lemma_resolve_sentences_extends(ss.skip(1), sd.1);
        let out = resolve_sentences(ss, d);
        assert forall|x: int| 0 <= x < out.0.len() implies frags_meanings_defined(
            #[trigger] out.0[x].original,
            out.1,
        ) by {
            if x == 0 {
                assert(out.0[0] == sd.0);
                assert(frags_meanings_defined(sd.0.original, sd.1));
                assert forall|y: int| 0 <= y < sd.0.original.len() implies (
                #[trigger] sd.0.original[y] matches OrgFragV::Meaning(w, ms)
                    ==> out.1.contains_key(w)) by {
                    match sd.0.original[y] {
                        OrgFragV::Meaning(w, _) => {
                            assert(sd.1.contains_key(w));
                        },
                        _ => {},
                    }
                }
            } else {
                assert(out.0[x] == rest.0[x - 1]);
            }
        }
    }
}

proof fn lemma_resolve_sentences_stable(ss: Seq<SentenceV>, d: Map<Seq<char>, Seq<Seq<char>>>)
    requires
        sentences_meanings_defined(ss, d),
        sentences_lookups_unresolved(ss, d),
    ensures
        resolve_sentences(ss, d).0 == ss,
        resolve_sentences(ss, d).1 == d,
    decreases ss.len(),
{
    if ss.len() > 0 {
        let sd = resolve_sentence(ss[0], d);
        assert(frags_meanings_defined(ss[0].original, d));
        assert(frags_lookups_unresolved(ss[0].original, d));
        lemma_resolve_frags_stable(ss[0].original, d);
        assert(sd.0 =~~= ss[0]);
        assert forall|x: int| 0 <= x < ss.skip(1).len() implies frags_meanings_defined(
            #[trigger] ss.skip(1)[x].original,
            d,
        ) by {
            assert(ss.skip(1)[x] == ss[x + 1]);
        }
        assert forall|x: int| 0 <= x < ss.skip(1).len() implies frags_lookups_unresolved(
            #[trigger] ss.skip(1)[x].original,
            d,
        ) by {
            assert(ss.skip(1)[x] == ss[x + 1]);
        }
        lemma_resolve_sentences_stable(ss.skip(1), d);
        assert(resolve_sentences(ss, d).0 =~= ss);
    }
}

/// No remaining lookup of the chapter's sentences is resolvable against its
/// dictionary. After one resolution pass this can only fail where a lookup
/// of a word stood before the pass reached that word's first inline
/// definition.
pub open spec fn resolution_stable(c: ChapterV) -> bool {
    sentences_lookups_unresolved(c.sentences, c.dictionary)
}

/// Resolution idempotence: running the pass twice is the same as running it
/// once, provided the first run left no lookup that its own dictionary
/// could resolve (which can only happen where a lookup of a word precedes
/// the word's first inline definition).
pub proof fn lemma_process_idempotent(c: ChapterV)
    requires
        resolution_stable(spec_process(c)),
    ensures
        spec_process(spec_process(c)) == spec_process(c),
{
    lemma_resolve_sentences_meanings(c.sentences, c.dictionary);
    let c1 = spec_process(c);
    lemma_resolve_sentences_stable(c1.sentences, c1.dictionary);
    assert(spec_process(c1) =~~= c1);
}

/// The first definition wins: the resolution pass never overwrites an
/// existing dictionary entry, so a word keeps the meanings it was first
/// given, and every lookup of it resolves to those meanings.
pub proof fn lemma_process_preserves_dictionary(c: ChapterV, w: Seq<char>)
    requires
        c.dictionary.contains_key(w),
    ensures
        spec_process(c).dictionary.contains_key(w),
        spec_process(c).dictionary[w] == c.dictionary[w],
{
    lemma_resolve_sentences_extends(c.sentences, c.dictionary);
}

proof fn lemma_resolve_frags_len(fs: Seq<OrgFragV>, d: Map<Seq<char>, Seq<Seq<char>>>)
    ensures
        resolve_frags(fs, d).0.len() == fs.len(),
    decreases fs.len(),
{
    if fs.len() > 0 {
        let fd = resolve_frag(fs[0], d);
        lemma_resolve_frags_len(fs.skip(1), fd.1);
    }
}

proof fn lemma_resolve_frags_at(
    fs: Seq<OrgFragV>,
    d: Map<Seq<char>, Seq<Seq<char>>>,
    fi: int,
    w: Seq<char>,
)
    requires
        d.contains_key(w),
        0 <= fi < fs.len(),
        fs[fi] == OrgFragV::DictLookup(w),
    ensures
        resolve_frags(fs, d).0.len() == fs.len(),
        resolve_frags(fs, d).0[fi] == OrgFragV::Meaning(w, d[w]),
    decreases fs.len(),
{
    lemma_resolve_frags_len(fs, d);
    let fd = resolve_frag(fs[0], d);
    if fi == 0 {
        lemma_resolve_frags_len(fs.skip(1), fd.1);
    } else {
        assert(dict_extends(fd.1, d));
        assert(fs.skip(1)[fi - 1] == fs[fi]);
        lemma_resolve_frags_at(fs.skip(1), fd.1, fi - 1, w);
        assert(resolve_frags(fs, d).0[fi] == resolve_frags(fs.skip(1), fd.1).0[fi - 1]);
    }
}

proof fn lemma_resolve_sentences_len(ss: Seq<SentenceV>, d: Map<Seq<char>, Seq<Seq<char>>>)
    ensures
        resolve_sentences(ss, d).0.len() == ss.len(),
    decreases ss.len(),
{
    if ss.len() > 0 {
        let sd = resolve_sentence(ss[0], d);
        lemma_resolve_sentences_len(ss.skip(1), sd.1);
    }
}

proof fn lemma_resolve_sentences_at(
    ss: Seq<SentenceV>,
    d: Map<Seq<char>, Seq<Seq<char>>>,
    si: int,
    fi: int,
    w: Seq<char>,
)
    requires
        d.contains_key(w),
        0 <= si < ss.len(),
        0 <= fi < ss[si].original.len(),
        ss[si].original[fi] == OrgFragV::DictLookup(w),
    ensures
        resolve_sentences(ss, d).0.len() == ss.len(),
        resolve_sentences(ss, d).0[si].original.len() == ss[si].original.len(),
        resolve_sentences(ss, d).0[si].original[fi] == OrgFragV::Meaning(w, d[w]),
    decreases ss.len(),
{
    lemma_resolve_sentences_len(ss, d);
    let sd = resolve_sentence(ss[0], d);
    if si == 0 {
        lemma_resolve_sentences_len(ss.skip(1), sd.1);
        lemma_resolve_frags_at(ss[0].original, d, fi, w);
    } else {
        lemma_resolve_frags_extends(ss[0].original, d);
        assert(dict_extends(sd.1, d));
        assert(ss.skip(1)[si - 1] == ss[si]);
        lemma_resolve_sentences_at(ss.skip(1), sd.1, si - 1, fi, w);
        assert(resolve_sentences(ss, d).0[si] == resolve_sentences(ss.skip(1), sd.1).0[si - 1]);
    }
}

/// A lookup of a word the dictionary already knows resolves to that
/// word's meanings, wherever it stands — including after a later, second
/// inline definition, which never changes the entry.
pub proof fn lemma_process_resolves_known_lookup(c: ChapterV, si: int, fi: int, w: Seq<char>)
    requires
        c.dictionary.contains_key(w),
        0 <= si < c.sentences.len(),
        0 <= fi < c.sentences[si].original.len(),
        c.sentences[si].original[fi] == OrgFragV::DictLookup(w),
    ensures
        spec_process(c).sentences.len() == c.sentences.len(),
        spec_process(c).sentences[si].original.len() == c.sentences[si].original.len(),
        spec_process(c).sentences[si].original[fi] == OrgFragV::Meaning(w, c.dictionary[w]),
{
    lemma_resolve_sentences_at(c.sentences, c.dictionary, si, fi, w);
}

fn clone_strings(v: &Vec<String>) -> (r: Vec<String>)
    ensures
        r.deep_view() == v.deep_view(),
{
    let mut r: Vec<String> = Vec::new();
    let mut i: usize = 0;
    while i < v.len()
        invariant
            i <= v@.len(),
            r@.len() == i,
            forall|k: int| 0 <= k < i ==> #[trigger] r@[k]@ == v@[k]@,
        decreases v@.len() - i,
    {
        r.push(v[i].clone());
        i = i + 1;
    }
    proof {
        assert(r.deep_view() =~= v.deep_view());
    }
    r
}

impl Chapter {
    /// The resolution pass: walk every sentence's fragments in order,
    /// adding absent inline definitions to the dictionary and replacing
    /// resolvable lookups, exactly as `spec_process` describes.
    pub fn process(&mut self)
        ensures
            final(self)@ == spec_process(old(self)@),
    {
        let ghost c0 = self@;
        let ghost d0 = self.dictionary@;
        let ghost ss0 = self.sentences.deep_view();
        let n = self.sentences.len();
        let mut i: usize = 0;
        proof {
            assert(ss0.skip(0) =~= ss0);
            assert(self.sentences.deep_view().take(0) =~= Seq::<SentenceV>::empty());
            assert(Seq::<SentenceV>::empty() + resolve_sentences(ss0, d0).0 =~= resolve_sentences(
                ss0,
                d0,
            ).0);
        }
        while i < n
            invariant
                i <= n,
                n == self.sentences@.len(),
                ss0.len() == n,
                c0.sentences == ss0,
                c0.dictionary == d0,
                forall|k: int| i <= k < n ==> #[trigger] self.sentences.deep_view()[k] == ss0[k],
                resolve_sentences(ss0, d0).0 == self.sentences.deep_view().take(i as int)
                    + resolve_sentences(ss0.skip(i as int), self.dictionary@).0,
                resolve_sentences(ss0, d0).1 == resolve_sentences(
                    ss0.skip(i as int),
                    self.dictionary@,
                ).1,
                self.title@ == c0.title,
                self.language@ == c0.language,
                self.tl_languages.deep_view() == c0.tl_languages,
                self.attrs@ == c0.attrs,
            decreases n - i,
        {
            let ghost snap = self.sentences.deep_view();
            let ghost din = self.dictionary@;
            let ghost s0 = ss0[i as int];
            let m = self.sentences[i].original.len();
            let mut j: usize = 0;
            proof {
                assert(s0.original.skip(0) =~= s0.original);
                assert(self.sentences.deep_view()[i as int].original.take(0) =~= Seq::<
                    OrgFragV,
                >::empty());
                assert(Seq::<OrgFragV>::empty() + resolve_frags(s0.original, din).0
                    =~= resolve_frags(s0.original, din).0);
            }
            while j < m
                invariant
                    j <= m,
                    i < n,
                    n == self.sentences@.len(),
                    m == self.sentences@[i as int].original@.len(),
                    snap.len() == n,
                    snap[i as int] == s0,
                    m == s0.original.len(),
                    forall|k: int|
                        0 <= k < n && k != i ==> #[trigger] self.sentences.deep_view()[k]
                            == snap[k],
                    self.sentences.deep_view()[i as int].label == s0.label,
                    self.sentences.deep_view()[i as int].orgattrs == s0.orgattrs,
                    self.sentences.deep_view()[i as int].translations == s0.translations,
                    self.sentences.deep_view()[i as int].original.len() == m,
                    forall|k: int|
                        j <= k < m ==> #[trigger] self.sentences.deep_view()[i as int].original[k]
                            == s0.original[k],
                    resolve_frags(s0.original, din).0 == self.sentences.deep_view()[
                        i as int
                    ].original.take(j as int) + resolve_frags(
                        s0.original.skip(j as int),
                        self.dictionary@,
                    ).0,
                    resolve_frags(s0.original, din).1 == resolve_frags(
                        s0.original.skip(j as int),
                        self.dictionary@,
                    ).1,
                    self.title@ == c0.title,
                    self.language@ == c0.language,
                    self.tl_languages.deep_view() == c0.tl_languages,
                    self.attrs@ == c0.attrs,
                decreases m - j,
            {
                let ghost dcur = self.dictionary@;
                let ghost fv = self.sentences.deep_view()[i as int].original[j as int];
                let ghost curfrags = self.sentences.deep_view()[i as int].original;
                let ghost prev_rows = self.sentences@;
                let ghost prev_deep = self.sentences.deep_view();
                proof {
                    assert(forall|k: int|
                        0 <= k < prev_rows.len() ==> #[trigger] prev_deep[k] == prev_rows[
                            k
                        ].deep_view());
                    assert(forall|k: int|
                        0 <= k < prev_rows[i as int].original@.len() ==> #[trigger] curfrags[k]
                            == prev_rows[i as int].original@[k].deep_view());
                }

                let mut action_insert: Option<(String, Vec<String>)> = None;
                let mut action_replace: Option<OrgFragment> = None;
                match &self.sentences[i].original[j] {
                    OrgFragment::Simple(_) => {},
                    OrgFragment::Meaning(w, ms) => {
                        action_insert = Some((w.clone(), clone_strings(ms)));
                    },
                    OrgFragment::DictLookup(w) => {
                        let wc = w.clone();
                        match self.dictionary.get(&wc) {
                            Some(ms) => {
                                let mc = clone_strings(ms);
                                action_replace = Some(OrgFragment::Meaning(wc, mc));
                            },
                            None => {},
                        }
                    },
                }
                match action_insert {
                    Some((k, v)) => {
                        self.dictionary.insert_absent(k, v);
                    },
                    None => {},
                }
                match action_replace {
                    Some(nf) => {
                        self.sentences[i].original[j] = nf;
                    },
                    None => {},
                }
                proof {
                    let fs = s0.original;
                    let fd = resolve_frag(fv, dcur);
                    assert(fs.skip(j as int)[0] == fs[j as int]);
                    assert(fs[j as int] == fv);
                    assert(fs.skip(j as int).skip(1) =~= fs.skip(j + 1 as int));
                    // The action performed matches one resolution step.
                    assert(self.dictionary@ == fd.1);
                    // Rows other than i are untouched.
                    assert(self.sentences@.len() == n);
                    assert forall|k: int| 0 <= k < n && k != i implies
                        self.sentences.deep_view()[k] == snap[k] by {
                        assert(self.sentences@[k] == prev_rows[k]);
                        assert(self.sentences.deep_view()[k] == self.sentences@[k].deep_view());
                        assert(snap[k] == prev_deep[k]);
                        assert(prev_deep[k] == prev_rows[k].deep_view());
                    }
                    let newfrags = self.sentences.deep_view()[i as int].original;
                    assert(newfrags[j as int] == fd.0);
                    assert forall|k: int| 0 <= k < m && k != j implies newfrags[k] == curfrags[k]
                    by {}
                    assert(newfrags.take(j + 1 as int) =~= curfrags.take(j as int).push(fd.0));
                    // Re-establish the resolution equation at j + 1.
                    let rest = resolve_frags(fs.skip(j + 1 as int), fd.1);
                    assert(resolve_frags(fs.skip(j as int), dcur).0 =~= seq![fd.0] + rest.0);
                    assert(curfrags.take(j as int) + (seq![fd.0] + rest.0) =~= newfrags.take(
                        j + 1 as int,
                    ) + rest.0);
                }
                j = j + 1;
            }
            proof {
                // Sentence i is fully resolved: fold it into the outer equation.
                let cur = self.sentences.deep_view();
                let fd = resolve_frags(s0.original, din);
                assert(cur[i as int].original.take(m as int) =~= cur[i as int].original);
                assert(s0.original.skip(m as int) =~= Seq::<OrgFragV>::empty());
                assert(cur[i as int].original + resolve_frags(
                    Seq::<OrgFragV>::empty(),
                    self.dictionary@,
                ).0 =~= cur[i as int].original);
                assert(cur[i as int] =~~= resolve_sentence(s0, din).0);
                assert(ss0.skip(i as int)[0] == ss0[i as int]);
                assert(ss0.skip(i as int).skip(1) =~= ss0.skip(i + 1 as int));
                let rest = resolve_sentences(ss0.skip(i + 1 as int), self.dictionary@);
                assert(resolve_sentences(ss0.skip(i as int), din).0 =~= seq![
                    resolve_sentence(s0, din).0,
                ] + rest.0);
                assert(cur.take(i + 1 as int) =~= cur.take(i as int).push(cur[i as int]));
                assert(cur.take(i as int) + (seq![resolve_sentence(s0, din).0] + rest.0)
                    =~= cur.take(i + 1 as int) + rest.0);
            }
            i = i + 1;
        }
        proof {
            let cur = self.sentences.deep_view();
            assert(ss0.skip(n as int) =~= Seq::<SentenceV>::empty());
            assert(cur.take(n as int) =~= cur);
            assert(cur + resolve_sentences(Seq::<SentenceV>::empty(), self.dictionary@).0 =~= cur);
            assert(self@ =~~= spec_process(c0));
        }
    }
}

} // verus!
