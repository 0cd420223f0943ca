//! The exact-match side of the full-text index: which documents it holds, and the
//! filter tokens that each was stored with.

use crate::causal::replica_list;
use crate::index::types::{DocModel, FilterModel, IndexDoc, ScalarFilter};
use crate::sorted::{lemma_map_of_domain, rows_of, Replica, SortedMap};
use crate::text::{join3, text_same};
use tantivy::tokenizer::{
    AsciiFoldingFilter, Language, LowerCaser, SimpleTokenizer, Stemmer, TextAnalyzer,
};
use vstd::prelude::*;

verus! {

/// The token that a filter is stored as. The unit separator between field and value
/// does not occur in ordinary names, so tokens of different fields do not collide.
pub open spec fn token_of(filter: FilterModel) -> Seq<char> {
    filter.field + "\u{1f}"@ + filter.value
}

/// The token that a filter is stored as.
pub fn filter_token(filter: &ScalarFilter) -> (r: String)
    ensures
        r@ == token_of(filter.deep_view()),
{
    match filter {
        ScalarFilter::Eq { field, value } => join3(field.as_str(), "\u{1f}", value.as_str()),
    }
}

/// The tokens that filters are stored as.
pub open spec fn tokens_of(filters: Seq<FilterModel>) -> Seq<Seq<char>> {
    Seq::new(filters.len(), |i: int| token_of(filters[i]))
}

/// The tokens that filters are stored as.
pub fn filter_tokens(filters: &Vec<ScalarFilter>) -> (r: Vec<String>)
    ensures
        r.deep_view() == tokens_of(filters.deep_view()),
{
    let ghost all = tokens_of(filters.deep_view());
    let mut tokens: Vec<String> = Vec::new();
    let mut i: usize = 0;
    assert(tokens.deep_view() =~= all.take(0));
    while i < filters.len()
        invariant
            i <= filters.len(),
            all == tokens_of(filters.deep_view()),
            tokens.deep_view() == all.take(i as int),
        decreases filters.len() - i,
    {
        let ghost was = tokens.deep_view();
        tokens.push(filter_token(&filters[i]));
        proof {
            assert(filters.deep_view()[i as int] == filters@[i as int].deep_view());
            assert(tokens.deep_view() =~= was.push(all[i as int]));
            assert(all.take(i + 1) =~= was.push(all[i as int]));
        }
        i += 1;
    }
    assert(all.take(i as int) =~= all);
    tokens
}

/// Tokens by document.
pub type TokensModel = Map<Seq<char>, Seq<Seq<char>>>;

/// The document carries all of the tokens.
pub open spec fn carries(stored: Seq<Seq<char>>, wanted: Seq<Seq<char>>) -> bool {
    forall|i: int| 0 <= i < wanted.len() ==> stored.contains(#[trigger] wanted[i])
}

/// The documents, among the given ones, that carry all of the tokens.
pub open spec fn carriers(
    rows: Seq<(Seq<char>, Seq<Seq<char>>)>,
    wanted: Seq<Seq<char>>,
) -> Seq<Seq<char>>
    decreases rows.len(),
{
    if rows.len() == 0 {
        Seq::empty()
    } else {
        let before = carriers(rows.drop_last(), wanted);
        if carries(rows.last().1, wanted) {
            before.push(rows.last().0)
        } else {
            before
        }
    }
}

/// The documents without the token.
pub open spec fn without_token(model: TokensModel, token: Seq<char>) -> TokensModel {
    model.restrict(
        Set::new(
            |id: Seq<char>| model.contains_key(id) && !model[id].contains(token),
        ),
    )
}

/// A field that text is searched in.
#[derive(Clone, Copy, Debug, PartialEq, Eq, Structural)]
pub enum TextField {
    Name,
    Body,
    Tags,
}

/// The fields that text is searched in, in order.
pub open spec fn text_fields() -> Seq<TextField> {
    seq![TextField::Name, TextField::Body, TextField::Tags]
}

/// Every token in every field.
pub open spec fn clauses_of(tokens: Seq<Seq<char>>) -> Seq<(Seq<char>, TextField)> {
    Seq::new(
        tokens.len() * 3,
        |i: int| (tokens[i / 3], text_fields()[i % 3]),
    )
}

#[derive(Debug, PartialEq)]
pub struct Clause {
    pub token: String,
    pub field: TextField,
}

impl DeepView for Clause {
    type V = (Seq<char>, TextField);

    open spec fn deep_view(&self) -> (Seq<char>, TextField) {
        (self.token@, self.field)
    }
}

/// The tokens that the Spanish-aware analyzer makes of a text: its words in lower case,
/// with accents folded away, stemmed.
pub uninterp spec fn analyzed(text: Seq<char>) -> Seq<Seq<char>>;

/// `tantivy::tokenizer::TextAnalyzer::token_stream` over `SimpleTokenizer`, `LowerCaser`,
/// `AsciiFoldingFilter` and the Spanish `Stemmer`, in that order, so that accented and
/// accent-less spellings normalize identically. The texts of its tokens are a function of
/// the input, named [`analyzed`].
#[verifier::external_body]
fn analyze(text: &str) -> (r: Vec<String>)
    ensures
        r.deep_view() == analyzed(text@),
{
    let mut tokens: Vec<String> = Vec::new();
    TextAnalyzer::builder(SimpleTokenizer::default())
        .filter(LowerCaser)
        .filter(AsciiFoldingFilter)
        .filter(Stemmer::new(Language::Spanish))
        .build()
        .token_stream(text)
        .process(&mut |token| tokens.push(token.text.clone()));
    tokens
}

/// What a malformed query degrades to: any of its tokens, in any of the fields.
pub fn bag_of_words(query_text: &str) -> (r: Vec<Clause>)
    ensures
        r.deep_view() == clauses_of(analyzed(query_text@)),
{
    word_clauses(&analyze(query_text))
}

/// Any of the tokens, in any of the fields.
pub fn word_clauses(tokens: &Vec<String>) -> (r: Vec<Clause>)
    ensures
        r.deep_view() == clauses_of(tokens.deep_view()),
{
    let ghost all = clauses_of(tokens.deep_view());
    let ghost model = tokens.deep_view();
    let mut clauses: Vec<Clause> = Vec::new();
    let mut i: usize = 0;
    assert(clauses.deep_view() =~= all.take(0));
    while i < tokens.len()
        invariant
            i <= tokens.len(),
            model == tokens.deep_view(),
            all == clauses_of(model),
            clauses.deep_view() == all.take(i * 3),
        decreases tokens.len() - i,
    {
        let ghost was = clauses.deep_view();
        let ghost token = model[i as int];
        assert(token == tokens@[i as int]@);
        clauses.push(Clause { token: tokens[i].clone(), field: TextField::Name });
        clauses.push(Clause { token: tokens[i].clone(), field: TextField::Body });
        clauses.push(Clause { token: tokens[i].clone(), field: TextField::Tags });
        proof {
            let more = was.push((token, TextField::Name)).push((token, TextField::Body)).push(
                (token, TextField::Tags),
            );
            assert(clauses.deep_view() =~= more);
            let n = i as int;
            assert((n * 3) / 3 == n && (n * 3 + 1) / 3 == n && (n * 3 + 2) / 3 == n);
            assert((n * 3) % 3 == 0 && (n * 3 + 1) % 3 == 1 && (n * 3 + 2) % 3 == 2);
            assert(all[n * 3] == (token, TextField::Name));
            assert(all[n * 3 + 1] == (token, TextField::Body));
            assert(all[n * 3 + 2] == (token, TextField::Tags));
            assert(all.take((n + 1) * 3) =~= more);
        }
        i += 1;
    }
    assert(all.take(i * 3) =~= all);
    clauses
}

/// The documents of a full-text index with their filter tokens.
pub struct TextIndex {
    entries: SortedMap<String, Vec<String>>,
}

impl DeepView for TextIndex {
    type V = TokensModel;

    closed spec fn deep_view(&self) -> TokensModel {
        self.entries.deep_view()
    }
}

/// Whether a token is among others.
fn has_token(tokens: &Vec<String>, token: &str) -> (r: bool)
    ensures
        r == tokens.deep_view().contains(token@),
{
    let mut i: usize = 0;
    while i < tokens.len()
        invariant
            i <= tokens.len(),
            forall|j: int| 0 <= j < i ==> #[trigger] tokens.deep_view()[j] != token@,
        decreases tokens.len() - i,
    {
        assert(tokens.deep_view()[i as int] == tokens@[i as int]@);
        if text_same(tokens[i].as_str(), token) {
            assert(tokens.deep_view()[i as int] == token@);
            return true;
        }
        i += 1;
    }
    false
}

fn has_all(stored: &Vec<String>, wanted: &Vec<String>) -> (r: bool)
    ensures
        r == carries(stored.deep_view(), wanted.deep_view()),
{
    let mut i: usize = 0;
    while i < wanted.len()
        invariant
            i <= wanted.len(),
            forall|j: int|
                0 <= j < i ==> stored.deep_view().contains(#[trigger] wanted.deep_view()[j]),
        decreases wanted.len() - i,
    {
        assert(wanted.deep_view()[i as int] == wanted@[i as int]@);
        if !has_token(stored, wanted[i].as_str()) {
            assert(!stored.deep_view().contains(wanted.deep_view()[i as int]));
            return false;
        }
        i += 1;
    }
    true
}

/// The index once documents were put into it, one after the other.
pub open spec fn with_docs(model: TokensModel, docs: Seq<DocModel>) -> TokensModel
    decreases docs.len(),
{
    if docs.len() == 0 {
        model
    } else {
        with_docs(model, docs.drop_last()).insert(
            docs.last().id,
            tokens_of(docs.last().filters),
        )
    }
}

impl TextIndex {
    pub fn new() -> (r: Self)
        ensures
            r.deep_view() == TokensModel::empty(),
    {
        TextIndex { entries: SortedMap::new() }
    }

    /// Insert or replace a document. A document with no text fields is still
    /// registered (id + filters) so it can be filtered and deleted later.
    pub fn upsert(&mut self, doc: &IndexDoc)
        ensures
            final(self).deep_view() == old(self).deep_view().insert(
                doc.deep_view().id,
                tokens_of(doc.deep_view().filters),
            ),
    {
        self.entries.insert(doc.id.clone(), filter_tokens(&doc.filters));
    }

    /// Insert or replace a batch of documents.
    pub fn upsert_batch(&mut self, docs: &Vec<IndexDoc>)
        ensures
            final(self).deep_view() == with_docs(old(self).deep_view(), docs.deep_view()),
    {
        let ghost start = self.deep_view();
        let ghost all = docs.deep_view();
        let mut i: usize = 0;
        assert(all.take(0) =~= Seq::empty());
        while i < docs.len()
            invariant
                i <= docs.len(),
                all == docs.deep_view(),
                self.deep_view() == with_docs(start, all.take(i as int)),
            decreases docs.len() - i,
        {
            assert(all.take(i + 1).drop_last() =~= all.take(i as int));
            assert(all.take(i + 1).last() == docs@[i as int].deep_view());
            self.upsert(&docs[i]);
            i += 1;
        }
        assert(all.take(i as int) =~= all);
    }

    /// Delete a document by id. Deleting a missing id is a no-op.
    pub fn delete_doc(&mut self, id: &str)
        ensures
            final(self).deep_view() == old(self).deep_view().remove(id@),
    {
        let ghost before = self.deep_view();
        let removed = self.entries.remove(&id.to_owned());
        assert(self.deep_view() =~= before.remove(id@));
    }

    /// Delete every document carrying the given scalar filter.
    pub fn delete_by_filter(&mut self, filter: &ScalarFilter)
        ensures
            final(self).deep_view() == without_token(
                old(self).deep_view(),
                token_of(filter.deep_view()),
            ),
    {
        let ghost before = self.deep_view();
        let token = filter_token(filter);
        let mut kept: SortedMap<String, Vec<String>> = SortedMap::new();
        let n: usize = self.entries.len();
        let ghost rows = self.entries.pairs();
        let mut i: usize = 0;
        assert(crate::sorted::map_of(rows.take(0)) =~= TokensModel::empty());
        assert(kept.deep_view() =~= without_token(
            crate::sorted::map_of(rows.take(0)),
            token@,
        ));
        while i < n
            invariant
                i <= n,
                n == rows.len(),
                rows == self.entries.pairs(),
                crate::sorted::ascending::<String, Seq<Seq<char>>>(rows),
                kept.deep_view() == without_token(
                    crate::sorted::map_of(rows.take(i as int)),
                    token@,
                ),
            decreases n - i,
        {
            let ghost was = crate::sorted::map_of(rows.take(i as int));
            let id = self.entries.key_at(i);
            let tokens = self.entries.value_at(i);
            let ghost key = id@;
            proof {
                assert(rows.take(i + 1).drop_last() =~= rows.take(i as int));
                if was.contains_key(key) {
                    lemma_map_of_domain(rows.take(i as int), key);
                    let j = choose|j: int|
                        0 <= j < i && (#[trigger] rows.take(i as int)[j]).0 == key;
                    crate::sorted::lemma_ascending_at::<String, Seq<Seq<char>>>(
                        rows,
                        j,
                        i as int,
                    );
                    <String as crate::sorted::SortKey>::before_irreflexive(key);
                }
            }
            if !has_token(tokens, token.as_str()) {
                kept.insert(id.clone(), replica_list(tokens));
            }
            proof {
                let now = crate::sorted::map_of(rows.take(i + 1));
                assert(now == was.insert(key, tokens.deep_view()));
                assert(kept.deep_view() =~= without_token(now, token@));
            }
            i += 1;
        }
        assert(rows.take(i as int) =~= rows);
        self.entries = kept;
    }

    /// Remove every document from the index.
    pub fn clear(&mut self)
        ensures
            final(self).deep_view() == TokensModel::empty(),
    {
        self.entries = SortedMap::new();
    }

    /// Return the ids of every document carrying all of the given scalar filters, in
    /// ascending order.
    pub fn ids_by_filters(&self, filters: &Vec<ScalarFilter>) -> (r: Vec<String>)
        ensures
            r.deep_view() == carriers(
                rows_of::<String, Seq<Seq<char>>>(self.deep_view()),
                tokens_of(filters.deep_view()),
            ),
    {
        let wanted = filter_tokens(filters);
        let n: usize = self.entries.len();
        let ghost rows = self.entries.pairs();
        let mut ids: Vec<String> = Vec::new();
        let mut i: usize = 0;
        assert(rows.take(0) =~= Seq::empty());
        assert(ids.deep_view() =~= Seq::empty());
        while i < n
            invariant
                i <= n,
                n == rows.len(),
                rows == self.entries.pairs(),
                ids.deep_view() == carriers(rows.take(i as int), wanted.deep_view()),
            decreases n - i,
        {
            let ghost was = ids.deep_view();
            assert(rows.take(i + 1).drop_last() =~= rows.take(i as int));
            if has_all(self.entries.value_at(i), &wanted) {
                ids.push(self.entries.key_at(i).clone());
                assert(ids.deep_view() =~= was.push(rows[i as int].0));
            }
            i += 1;
        }
        assert(rows.take(i as int) =~= rows);
        ids
    }

    /// Return the ids of every document carrying the given scalar filter, in ascending
    /// order.
    pub fn ids_by_filter(&self, filter: &ScalarFilter) -> (r: Vec<String>)
        ensures
            r.deep_view() == carriers(
                rows_of::<String, Seq<Seq<char>>>(self.deep_view()),
                seq![token_of(filter.deep_view())],
            ),
    {
        let mut filters: Vec<ScalarFilter> = Vec::new();
        filters.push(filter.replica());
        assert(tokens_of(filters.deep_view()) =~= seq![token_of(filter.deep_view())]);
        self.ids_by_filters(&filters)
    }

    /// Return the filter tokens stored for a document, or `None` if the id is not
    /// indexed.
    pub fn stored_filter_tokens(&self, id: &str) -> (r: Option<Vec<String>>)
        ensures
            match r {
                Some(tokens) => self.deep_view().contains_key(id@) && self.deep_view()[id@]
                    == tokens.deep_view(),
                None => !self.deep_view().contains_key(id@),
            },
    {
        match self.entries.get(&id.to_owned()) {
            Some(tokens) => Some(replica_list(tokens)),
            None => None,
        }
    }
}

/// A document is found by filters exactly if it carries all of them.
pub proof fn law_filters_are_exact(
    rows: Seq<(Seq<char>, Seq<Seq<char>>)>,
    wanted: Seq<Seq<char>>,
    id: Seq<char>,
)
    ensures
        carriers(rows, wanted).contains(id) <==> exists|i: int|
            0 <= i < rows.len() && (#[trigger] rows[i]).0 == id && carries(rows[i].1, wanted),
    decreases rows.len(),
{
    if rows.len() > 0 {
        let rest = rows.drop_last();
        let before = carriers(rest, wanted);
        let all = carriers(rows, wanted);
        law_filters_are_exact(rest, wanted, id);
        if all.contains(id) {
            let k = choose|k: int| 0 <= k < all.len() && all[k] == id;
            if k < before.len() {
                assert(before[k] == id);
                assert(before.contains(id));
                let i = choose|i: int|
                    0 <= i < rest.len() && (#[trigger] rest[i]).0 == id && carries(
                        rest[i].1,
                        wanted,
                    );
                assert(rows[i] == rest[i]);
            } else {
                assert(rows[rows.len() - 1].0 == id);
            }
        }
        if exists|i: int|
            0 <= i < rows.len() && (#[trigger] rows[i]).0 == id && carries(rows[i].1, wanted) {
            let i = choose|i: int|
                0 <= i < rows.len() && (#[trigger] rows[i]).0 == id && carries(rows[i].1, wanted);
            if i < rest.len() {
                assert(rest[i] == rows[i]);
                assert(before.contains(id));
                let k = choose|k: int| 0 <= k < before.len() && before[k] == id;
                assert(all[k] == id);
            } else {
                assert(all[before.len() as int] == id);
            }
        }
    }
}

/// Filter tokens tell filters apart: where field names do not hold the separator, two
/// filters have the same token exactly if they have the same field and the same value.
pub proof fn law_filter_tokens_tell_filters_apart(a: FilterModel, b: FilterModel)
    requires
        !a.field.contains('\u{1f}'),
        !b.field.contains('\u{1f}'),
    ensures
        token_of(a) == token_of(b) <==> a.field == b.field && a.value == b.value,
{
    reveal_strlit("\u{1f}");
    let s = token_of(a);
    let t = token_of(b);
    if s == t {
        let m = a.field.len() as int;
        let n = b.field.len() as int;
        assert(s[m] == '\u{1f}');
        assert(t[n] == '\u{1f}');
        if m < n {
            assert(t[m] == b.field[m]);
        } else if n < m {
            assert(s[n] == a.field[n]);
        }
        assert(m == n);
        assert(a.field =~= s.take(m));
        assert(b.field =~= t.take(n));
        assert(a.value =~= s.skip(m + 1));
        assert(b.value =~= t.skip(n + 1));
    }
}

/// A document carries the tokens of the wanted filters exactly if each of them is one of
/// its own filters.
pub proof fn law_filters_are_carried(own: Seq<FilterModel>, wanted: Seq<FilterModel>)
    requires
        forall|i: int| 0 <= i < own.len() ==> !(#[trigger] own[i]).field.contains('\u{1f}'),
        forall|i: int| 0 <= i < wanted.len() ==> !(#[trigger] wanted[i]).field.contains('\u{1f}'),
    ensures
        carries(tokens_of(own), tokens_of(wanted)) <==> forall|i: int|
            0 <= i < wanted.len() ==> own.contains(#[trigger] wanted[i]),
{
    let stored = tokens_of(own);
    let asked = tokens_of(wanted);
    assert forall|i: int| 0 <= i < wanted.len() implies (stored.contains(#[trigger] asked[i])
        <==> own.contains(wanted[i])) by {
        if stored.contains(asked[i]) {
            let k = choose|k: int| 0 <= k < stored.len() && stored[k] == asked[i];
            law_filter_tokens_tell_filters_apart(own[k], wanted[i]);
            assert(own[k] =~= wanted[i]);
        }
        if own.contains(wanted[i]) {
            let k = choose|k: int| 0 <= k < own.len() && own[k] == wanted[i];
            assert(stored[k] == asked[i]);
        }
    }
    if carries(stored, asked) {
        assert forall|i: int| 0 <= i < wanted.len() implies own.contains(#[trigger] wanted[i]) by {
            assert(stored.contains(asked[i]));
        }
    }
    if forall|i: int| 0 <= i < wanted.len() ==> own.contains(#[trigger] wanted[i]) {
        assert forall|i: int| 0 <= i < asked.len() implies stored.contains(#[trigger] asked[i]) by {
            assert(own.contains(wanted[i]));
        }
    }
}

/// Text is searched for every token in the name, in the body and in the tags, and nowhere
/// else.
pub proof fn law_every_token_is_searched_in_every_field(
    tokens: Seq<Seq<char>>,
    token: Seq<char>,
    field: TextField,
)
    ensures
        clauses_of(tokens).contains((token, field)) <==> tokens.contains(token),
        clauses_of(tokens).len() == 3 * tokens.len(),
{
    let clauses = clauses_of(tokens);
    if clauses.contains((token, field)) {
        let i = choose|i: int| 0 <= i < clauses.len() && clauses[i] == (token, field);
        assert(tokens[i / 3] == token);
    }
    if tokens.contains(token) {
        let k = choose|k: int| 0 <= k < tokens.len() && tokens[k] == token;
        let f: int = match field {
            TextField::Name => 0,
            TextField::Body => 1,
            TextField::Tags => 2,
        };
        let i = 3 * k + f;
        assert(i / 3 == k && i % 3 == f);
        assert(text_fields()[f] == field);
        assert(clauses[i] == (token, field));
    }
}

/// The documents found are in the order in which they are stored, each once.
pub proof fn law_carriers_keep_the_order(
    rows: Seq<(Seq<char>, Seq<Seq<char>>)>,
    wanted: Seq<Seq<char>>,
)
    ensures
        ({
            let kept = rows.filter(
                |row: (Seq<char>, Seq<Seq<char>>)|
                    forall|i: int|
                        0 <= i < wanted.len() ==> row.1.contains(#[trigger] wanted[i]),
            );
            &&& carriers(rows, wanted).len() == kept.len()
            &&& forall|k: int|
                0 <= k < kept.len() ==> #[trigger] carriers(rows, wanted)[k] == kept[k].0
        }),
    decreases rows.len(),
{
    let keep = |row: (Seq<char>, Seq<Seq<char>>)|
        forall|i: int| 0 <= i < wanted.len() ==> row.1.contains(#[trigger] wanted[i]);
    reveal(Seq::filter);
    if rows.len() > 0 {
        law_carriers_keep_the_order(rows.drop_last(), wanted);
        assert(rows =~= rows.drop_last().push(rows.last()));
        crate::lists::lemma_filter_push(rows.drop_last(), rows.last(), keep);
        assert(keep(rows.last()) == carries(rows.last().1, wanted));
    }
}

/// Removing by a token leaves exactly the documents without it.
pub proof fn law_removal_by_token_is_exact(model: TokensModel, token: Seq<char>, id: Seq<char>)
    ensures
        without_token(model, token).contains_key(id) <==> model.contains_key(id)
            && !model[id].contains(token),
        without_token(model, token).contains_key(id) ==> without_token(model, token)[id]
            == model[id],
{
}

} // verus!
