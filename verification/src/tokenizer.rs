//! The tokenizer of a model, built from the vocabulary and the merge rules in its file.

use candle_core::quantized::gguf_file::Content;
use tokenizers::Tokenizer;
use vstd::hash_map::StringHashMap;
use vstd::prelude::*;
use vstd::utf8::encode_utf8;

use crate::generation::{taken, wrap_prompt, wrapped_prompt, Generation, GenerationError};
use crate::generation::{Taking, TextAction, BOS_TOKEN, EOS_TOKEN, MAX_TOKENS};
use crate::generation::{TURN_END_TOKEN, TURN_START_TOKEN};
use crate::gguf::{header, item_views, metadata_array, metadata_item};
use crate::gguf::{ItemView, MetaItem, MetaView};
use crate::text::{chars_occur_at, occurs_at, slice, span, to_chars};
use crate::text::{decimal, decimal_text, lemma_encode_add, lemma_span, lemma_span_is, views};

verus! {

/// A tokenizer of the `tokenizers` crate.
#[verifier::external_type_specification]
#[verifier::external_body]
pub struct ExTokenizer(tokenizers::Tokenizer);

/// An error of `serde_json`, carried through as it came.
#[verifier::external_type_specification]
#[verifier::external_body]
pub struct ExJsonError(serde_json::Error);

/// What a tokenizer does: the tokens of each text, with special tokens added or not, and the
/// text of each list of tokens, with special tokens skipped or not; or why there are none.
pub struct TokenizerView {
    pub encodings: Map<(Seq<char>, bool), Result<Seq<u32>, Seq<char>>>,
    pub decodings: Map<(Seq<u32>, bool), Result<Seq<char>, Seq<char>>>,
}

/// The text of a token, where it can be decoded, with special tokens skipped.
pub open spec fn decoded(tokenizer: TokenizerView, token: u32) -> Option<Seq<char>> {
    match tokenizer.decodings[(seq![token], true)] {
        Ok(text) => Some(text),
        Err(_) => None,
    }
}

/// What a tokenizer does.
pub uninterp spec fn tables(tokenizer: Tokenizer) -> TokenizerView;

/// What the tokenizer does that a document describes, or what is wrong with the document.
pub uninterp spec fn built_tables(document: Seq<char>) -> Result<TokenizerView, Seq<char>>;

/// A list of strings in JSON.
pub uninterp spec fn json_strings(list: Seq<Seq<char>>) -> Option<Seq<char>>;

/// Numbers by name in JSON, in the order of the names.
pub uninterp spec fn json_numbers(numbers: Map<Seq<char>, u64>) -> Option<Seq<char>>;

/// The names and numbers of a list of pairs.
pub open spec fn pair_views(pairs: Seq<(String, u64)>) -> Seq<(Seq<char>, u64)> {
    pairs.map_values(|pair: (String, u64)| (pair.0@, pair.1))
}

/// The numbers of a list of pairs by name; the last one counts where a name comes twice.
pub open spec fn pairs_map(pairs: Seq<(Seq<char>, u64)>) -> Map<Seq<char>, u64>
    decreases pairs.len(),
{
    if pairs.len() == 0 {
        Map::empty()
    } else {
        pairs_map(pairs.drop_last()).insert(pairs.last().0, pairs.last().1)
    }
}

/// No name comes twice.
pub open spec fn distinct_names(pairs: Seq<(Seq<char>, u64)>) -> bool {
    forall|i: int, j: int|
        0 <= i < j < pairs.len() ==> (#[trigger] pairs[i]).0 != (#[trigger] pairs[j]).0
}

/// Writes a list of strings with `serde_json::to_string`. The text depends on the strings
/// alone.
#[verifier::external_body]
fn strings_to_json(list: &Vec<String>) -> (result: Result<String, serde_json::Error>)
    ensures
        match result {
            Ok(text) => json_strings(views(list@)) == Some(text@),
            Err(_) => json_strings(views(list@)) is None,
        },
{
    serde_json::to_string(list)
}

/// Writes numbers by name with `serde_json::to_string`, from a map that is ordered by name.
/// The text depends on the names and numbers alone.
#[verifier::external_body]
fn numbers_to_json(pairs: &Vec<(String, u64)>) -> (result: Result<String, serde_json::Error>)
    requires
        distinct_names(pair_views(pairs@)),
    ensures
        match result {
            Ok(text) => json_numbers(pairs_map(pair_views(pairs@))) == Some(text@),
            Err(_) => json_numbers(pairs_map(pair_views(pairs@))) is None,
        },
{
    let map: std::collections::BTreeMap<&String, &u64> = pairs.iter().map(|p| (&p.0, &p.1)).collect();
    serde_json::to_string(&map)
}

/// The vocabulary in a list of metadata items: the position of each text. The last position
/// counts where a text comes twice; what is not a text has no place in it.
pub open spec fn vocabulary(items: Seq<ItemView>) -> Map<Seq<char>, u64>
    decreases items.len(),
{
    if items.len() == 0 {
        Map::empty()
    } else {
        match items.last() {
            ItemView::Text(text) => vocabulary(items.drop_last()).insert(
                text,
                (items.len() - 1) as u64,
            ),
            _ => vocabulary(items.drop_last()),
        }
    }
}

/// The texts in a list of metadata items.
pub open spec fn texts_of(items: Seq<ItemView>) -> Seq<Seq<char>>
    decreases items.len(),
{
    if items.len() == 0 {
        seq![]
    } else {
        match items.last() {
            ItemView::Text(text) => texts_of(items.drop_last()).push(text),
            _ => texts_of(items.drop_last()),
        }
    }
}

/// An entry of the vocabulary is a text at its position.
proof fn lemma_vocabulary(items: Seq<ItemView>, text: Seq<char>)
    requires
        items.len() <= u64::MAX,
    ensures
        vocabulary(items).contains_key(text) ==> {
            let id = vocabulary(items)[text] as int;
            id < items.len() && items[id] == ItemView::Text(text)
        },
    decreases items.len(),
{
    if items.len() > 0 {
        lemma_vocabulary(items.drop_last(), text);
    }
}

/// A text in the list is in the vocabulary, at its position or further back.
proof fn lemma_vocabulary_has(items: Seq<ItemView>, at: int, text: Seq<char>)
    requires
        items.len() <= u64::MAX,
        0 <= at < items.len(),
        items[at] == ItemView::Text(text),
    ensures
        vocabulary(items).contains_key(text),
        vocabulary(items)[text] >= at,
    decreases items.len(),
{
    if at < items.len() - 1 {
        assert(items.drop_last()[at] == items[at]);
        lemma_vocabulary_has(items.drop_last(), at, text);
    }
}

/// A text that comes more than once has its last position in the vocabulary.
pub proof fn law_last_position_counts(items: Seq<ItemView>, at: int, text: Seq<char>)
    requires
        items.len() <= u64::MAX,
        0 <= at < items.len(),
        items[at] == ItemView::Text(text),
        forall|i: int| at < i < items.len() ==> items[i] != ItemView::Text(text),
    ensures
        vocabulary(items).contains_key(text),
        vocabulary(items)[text] == at,
{
    lemma_vocabulary_has(items, at, text);
    lemma_vocabulary(items, text);
}

/// Different texts have different positions in the vocabulary.
pub proof fn law_vocabulary_is_injective(items: Seq<ItemView>, a: Seq<char>, b: Seq<char>)
    requires
        items.len() <= u64::MAX,
        vocabulary(items).contains_key(a),
        vocabulary(items).contains_key(b),
        vocabulary(items)[a] == vocabulary(items)[b],
    ensures
        a == b,
{
    lemma_vocabulary(items, a);
    lemma_vocabulary(items, b);
}

/// A vocabulary, for looking texts up and for listing them.
pub struct Vocabulary {
    ids: StringHashMap<u64>,
    pairs: Vec<(String, u64)>,
}

impl View for Vocabulary {
    type V = Map<Seq<char>, u64>;

    closed spec fn view(&self) -> Map<Seq<char>, u64> {
        self.ids@
    }
}

impl Vocabulary {
    /// The listed pairs are what can be looked up, each once.
    pub closed spec fn wf(&self) -> bool {
        &&& distinct_names(pair_views(self.pairs@))
        &&& pairs_map(pair_views(self.pairs@)) == self.ids@
    }

    /// The position of each text in a list of metadata items.
    pub fn read(items: &Vec<MetaItem>) -> (result: Vocabulary)
        ensures
            result@ == vocabulary(item_views(items@)),
            result.wf(),
    {
        let count: usize = items.len();
        let ghost all = item_views(items@);
        let mut ids: StringHashMap<u64> = StringHashMap::new();
        let mut i: usize = 0;
        while i < count
            invariant
                i <= count,
                count == items@.len(),
                all == item_views(items@),
                ids@ == vocabulary(all.take(i as int)),
            decreases count - i,
        {
            proof {
                assert(all.take(i + 1).drop_last() =~= all.take(i as int));
                assert(all.take(i + 1).last() == items@[i as int]@);
            }
            match &items[i] {
                MetaItem::Text(text) => {
                    ids.insert(text.as_str().to_owned(), i as u64);
                },
                _ => {},
            }
            i += 1;
        }
        assert(all.take(i as int) =~= all);
        let mut pairs: Vec<(String, u64)> = Vec::new();
        let mut k: usize = 0;
        assert(pair_views(pairs@) =~= Seq::<(Seq<char>, u64)>::empty());
        while k < count
            invariant
                k <= count,
                count == items@.len(),
                all == item_views(items@),
                ids@ == vocabulary(all),
                distinct_names(pair_views(pairs@)),
                forall|j: int|
                    0 <= j < pairs@.len() ==> ids@.contains_key((#[trigger] pairs@[j]).0@)
                        && ids@[pairs@[j].0@] < k,
                forall|text: Seq<char>|
                    #[trigger] pairs_map(pair_views(pairs@)).contains_key(text) <==> (
                    ids@.contains_key(text) && ids@[text] < k),
                forall|text: Seq<char>| #[trigger]
                    pairs_map(pair_views(pairs@)).contains_key(text) ==> pairs_map(
                        pair_views(pairs@),
                    )[text] == ids@[text],
            decreases count - k,
        {
            let ghost before = pairs@;
            assert(all[k as int] == items@[k as int]@);
            let ghost old_map = pairs_map(pair_views(before));
            match &items[k] {
                MetaItem::Text(text) => {
                    proof {
                        lemma_vocabulary_has(all, k as int, text@);
                    }
                    match ids.get(text.as_str()) {
                        Some(id) => {
                            if *id == k as u64 {
                                pairs.push((text.as_str().to_owned(), k as u64));
                                proof {
                                    let views_before = pair_views(before);
                                    let views_after = pair_views(pairs@);
                                    assert(views_after =~= views_before.push((text@, k as u64)));
                                    assert(views_after.drop_last() =~= views_before);
                                    assert(pairs_map(views_after) == old_map.insert(
                                        text@,
                                        k as u64,
                                    ));
                                    assert forall|a: int, b: int|
                                        0 <= a < b < views_after.len() implies (
                                    #[trigger] views_after[a]).0 != (
                                    #[trigger] views_after[b]).0 by {
                                        assert(views_after[a].0 == before[a].0@);
                                        if b < views_before.len() {
                                            assert(views_before[a] == views_after[a]);
                                            assert(views_before[b] == views_after[b]);
                                        } else {
                                            assert(ids@[before[a].0@] < k);
                                        }
                                    }
                                }
                            }
                        },
                        None => {},
                    }
                },
                _ => {},
            }
            proof {
                let new_map = pairs_map(pair_views(pairs@));
                assert forall|text: Seq<char>|
                    (#[trigger] new_map.contains_key(text) <==> (ids@.contains_key(text)
                        && ids@[text] < k + 1)) && (new_map.contains_key(text) ==> new_map[text]
                        == ids@[text]) by {
                    assert(old_map.contains_key(text) <==> (ids@.contains_key(text) && ids@[text]
                        < k));
                    if ids@.contains_key(text) && ids@[text] == k {
                        lemma_vocabulary(all, text);
                    }
                }
            }
            k += 1;
        }
        proof {
            assert forall|text: Seq<char>| #[trigger] ids@.contains_key(text) implies ids@[text]
                < k by {
                lemma_vocabulary(all, text);
            }
            assert(pairs_map(pair_views(pairs@)) =~= ids@);
        }
        Vocabulary { ids, pairs }
    }

    /// The position of a text, cut to 32 bits, or minus one for a text that is not in the
    /// vocabulary.
    pub fn control_id(&self, token: &str) -> (id: i32)
        ensures
            id == control_place(self@, token@),
    {
        match self.ids.get(token) {
            Some(id) => #[verifier::truncate]
            (*id as i32),
            None => -1,
        }
    }
}

/// A special token as a document describes it.
pub open spec fn special_token(content: Seq<char>, id: nat) -> Seq<char> {
    "{\"content\":\""@ + content + "\",\"id\":"@ + decimal(id)
        + ",\"lstrip\":false,\"normalized\":false,\"rstrip\":false,\"single_word\":false,\"special\":true}"@
}

/// What stands in a document before the merge rules: the special tokens with their places in
/// the vocabulary, the decoder, and the first settings of the model.
pub open spec fn document_head() -> Seq<char> {
    "{\"added_tokens\":["@ + special_token("<pad>"@, 0) + ","@ + special_token(
        "<eos>"@,
        EOS_TOKEN as nat,
    ) + ","@ + special_token("<bos>"@, BOS_TOKEN as nat) + ","@ + special_token("<unk>"@, 3)
        + ","@ + special_token("<mask>"@, 4) + ","@ + special_token(
        "<|turn>"@,
        TURN_START_TOKEN as nat,
    ) + ","@ + special_token("<turn|>"@, TURN_END_TOKEN as nat)
        + "],\"decoder\":{\"add_prefix_space\":true,\"replacement\":\"\u{2581}\",\"type\":\"Metaspace\"},"@
        + "\"model\":{\"continuing_subword_prefix\":null,\"dropout\":null,\"end_of_word_suffix\":null,"@
        + "\"fuse_unk\":false,\"merges\":"@
}

/// What stands in a document between the merge rules and the vocabulary.
pub open spec fn document_middle() -> Seq<char> {
    ",\"type\":\"BPE\",\"unk_token\":\"<unk>\",\"vocab\":"@
}

/// What stands in a document behind the vocabulary: the normalizer, which puts a space in
/// front and marks every space, and the splitting at those marks.
pub open spec fn document_tail() -> Seq<char> {
    "},\"normalizer\":{\"normalizers\":[{\"prepend\":\" \",\"type\":\"Prepend\"},"@
        + "{\"content\":\"\u{2581}\",\"pattern\":{\"String\":\" \"},\"type\":\"Replace\"}],"@
        + "\"type\":\"Sequence\"},\"padding\":null,\"post_processor\":null,"@
        + "\"pre_tokenizer\":{\"add_prefix_space\":true,\"replacement\":\"\u{2581}\",\"type\":\"Metaspace\"},"@
        + "\"truncation\":null,\"version\":\"1.0\"}"@
}

/// The document that describes a tokenizer with these merge rules and this vocabulary, both
/// in JSON.
pub open spec fn document(merges_json: Seq<char>, vocab_json: Seq<char>) -> Seq<char> {
    document_head() + merges_json + document_middle() + vocab_json + document_tail()
}

/// Puts the description of a special token behind a text.
fn push_special_token(text: &mut String, content: &str, id: u32)
    ensures
        final(text)@ == old(text)@ + special_token(content@, id as nat),
{
    text.append("{\"content\":\"");
    text.append(content);
    text.append("\",\"id\":");
    let number: String = decimal_text(id as u64);
    text.append(number.as_str());
    text.append(
        ",\"lstrip\":false,\"normalized\":false,\"rstrip\":false,\"single_word\":false,\"special\":true}",
    );
    assert(text@ =~= old(text)@ + special_token(content@, id as nat));
}

/// The document that describes a tokenizer with these merge rules and this vocabulary, both
/// in JSON.
pub fn write_document(merges_json: &str, vocab_json: &str) -> (text: String)
    ensures
        text@ == document(merges_json@, vocab_json@),
{
    let mut text: String = "{\"added_tokens\":[".to_owned();
    push_special_token(&mut text, "<pad>", 0);
    text.append(",");
    push_special_token(&mut text, "<eos>", EOS_TOKEN);
    text.append(",");
    push_special_token(&mut text, "<bos>", BOS_TOKEN);
    text.append(",");
    push_special_token(&mut text, "<unk>", 3);
    text.append(",");
    push_special_token(&mut text, "<mask>", 4);
    text.append(",");
    push_special_token(&mut text, "<|turn>", TURN_START_TOKEN);
    text.append(",");
    push_special_token(&mut text, "<turn|>", TURN_END_TOKEN);
    text.append(
        "],\"decoder\":{\"add_prefix_space\":true,\"replacement\":\"\u{2581}\",\"type\":\"Metaspace\"},",
    );
    text.append(
        "\"model\":{\"continuing_subword_prefix\":null,\"dropout\":null,\"end_of_word_suffix\":null,",
    );
    text.append("\"fuse_unk\":false,\"merges\":");
    text.append(merges_json);
    text.append(",\"type\":\"BPE\",\"unk_token\":\"<unk>\",\"vocab\":");
    text.append(vocab_json);
    let ghost so_far = text@;
    text.append("},\"normalizer\":{\"normalizers\":[{\"prepend\":\" \",\"type\":\"Prepend\"},");
    text.append(
        "{\"content\":\"\u{2581}\",\"pattern\":{\"String\":\" \"},\"type\":\"Replace\"}],",
    );
    text.append("\"type\":\"Sequence\"},\"padding\":null,\"post_processor\":null,");
    text.append(
        "\"pre_tokenizer\":{\"add_prefix_space\":true,\"replacement\":\"\u{2581}\",\"type\":\"Metaspace\"},",
    );
    text.append("\"truncation\":null,\"version\":\"1.0\"}");
    assert(text@ =~= so_far + document_tail());
    text
}

/// A line that states a version is no merge rule.
pub open spec fn is_version_line(line: Seq<char>) -> bool {
    occurs_at(line, "#version"@, 0)
}

/// Where the first space of a line stands.
pub open spec fn first_space(line: Seq<char>) -> int {
    span(line, |c: char| c != ' ') as int
}

/// A merge rule is two parts with one space between them.
pub open spec fn is_rule(line: Seq<char>) -> bool {
    first_space(line) < line.len() && forall|i: int|
        first_space(line) < i < line.len() ==> #[trigger] line[i] != ' '
}

/// The part of a rule before the space.
pub open spec fn left_part(line: Seq<char>) -> Seq<char> {
    line.take(first_space(line))
}

/// The part of a rule behind the space.
pub open spec fn right_part(line: Seq<char>) -> Seq<char> {
    line.skip(first_space(line) + 1)
}

/// Both parts of a rule are in the vocabulary.
pub open spec fn has_parts(vocab: Map<Seq<char>, u64>, line: Seq<char>) -> bool {
    vocab.contains_key(left_part(line)) && vocab.contains_key(right_part(line))
}

/// A rule can be used with a vocabulary: both parts and what they make are in it.
pub open spec fn rule_builds(vocab: Map<Seq<char>, u64>, line: Seq<char>) -> bool {
    has_parts(vocab, line) && vocab.contains_key(left_part(line) + right_part(line))
}

/// Both parts of a rule are in the vocabulary, but together longer, in bytes, than any entry.
pub open spec fn rule_is_too_long(vocab: Map<Seq<char>, u64>, line: Seq<char>) -> bool {
    &&& has_parts(vocab, line)
    &&& forall|entry: Seq<char>| #[trigger]
        vocab.contains_key(entry) ==> encode_utf8(entry).len() < encode_utf8(left_part(line)).len()
            + encode_utf8(right_part(line)).len()
}

/// The lines are merge rules, but for those that state a version, and the first rule that
/// cannot be used with the vocabulary is one that is too long.
pub open spec fn merges_too_long(vocab: Map<Seq<char>, u64>, merges: Seq<Seq<char>>) -> bool {
    &&& forall|i: int|
        0 <= i < merges.len() ==> is_version_line(#[trigger] merges[i]) || is_rule(merges[i])
    &&& exists|i: int| #[trigger] fails_first_by_length(vocab, merges, i)
}

/// The rule at `i` is too long, and every rule before it can be used.
pub open spec fn fails_first_by_length(
    vocab: Map<Seq<char>, u64>,
    merges: Seq<Seq<char>>,
    i: int,
) -> bool {
    &&& 0 <= i < merges.len()
    &&& !is_version_line(merges[i])
    &&& rule_is_too_long(vocab, merges[i])
    &&& forall|j: int|
        0 <= j < i ==> is_version_line(#[trigger] merges[j]) || rule_builds(vocab, merges[j])
}

/// A document describes a tokenizer with a vocabulary in which no number comes twice, and
/// merge rules that are not too long for it.
pub open spec fn describes(
    text: Seq<char>,
    vocab: Map<Seq<char>, u64>,
    merges: Seq<Seq<char>>,
) -> bool {
    &&& json_strings(merges) is Some
    &&& json_numbers(vocab) is Some
    &&& text == document(json_strings(merges)->0, json_numbers(vocab)->0)
    &&& !merges_too_long(vocab, merges)
    &&& forall|a: Seq<char>, b: Seq<char>| #[trigger]
        vocab.contains_key(a) && #[trigger] vocab.contains_key(b) && vocab[a] == vocab[b] ==> a
            == b
}

/// Builds a tokenizer with `Tokenizer::from_bytes`. What it does, or what is wrong with the
/// document, depends on the document alone. A merge rule whose parts are in the vocabulary
/// but together longer than any entry is ruled out, unless an earlier line is refused:
/// building would copy it into a buffer as long as the longest entry. So is a number that two
/// entries share, since either could then be decoded.
#[verifier::external_body]
fn build_tokenizer(text: &str) -> (result: Result<Tokenizer, String>)
    requires
        exists|vocab: Map<Seq<char>, u64>, merges: Seq<Seq<char>>|
            describes(text@, vocab, merges),
    ensures
        match result {
            Ok(tokenizer) => built_tables(text@) == Ok::<TokenizerView, Seq<char>>(
                tables(tokenizer),
            ),
            Err(reason) => built_tables(text@) == Err::<TokenizerView, Seq<char>>(reason@),
        },
{
    Tokenizer::from_bytes(text.as_bytes()).map_err(|e| e.to_string())
}

/// Looks up the tokens of a text with `Tokenizer::encode` and `Encoding::get_ids`. A tokenizer
/// that was built from a document of this library drops nothing by chance: the tokens depend
/// on what it was built from and on the arguments alone.
#[verifier::external_body]
fn encode(tokenizer: &Tokenizer, text: &str, add_special: bool) -> (result: Result<
    Vec<u32>,
    String,
>)
    requires
        was_built(*tokenizer),
    ensures
        tables(*tokenizer).encodings[(text@, add_special)] == match result {
            Ok(tokens) => Ok::<Seq<u32>, Seq<char>>(tokens@),
            Err(reason) => Err::<Seq<u32>, Seq<char>>(reason@),
        },
{
    match tokenizer.encode(text, add_special) {
        Ok(encoding) => Ok(encoding.get_ids().to_vec()),
        Err(e) => Err(e.to_string()),
    }
}

/// Looks up the text of a list of tokens with `Tokenizer::decode`. The decoder of a tokenizer
/// that was built from a document of this library takes any list, an empty one too.
#[verifier::external_body]
fn decode(tokenizer: &Tokenizer, tokens: &[u32], skip_special: bool) -> (result: Result<
    String,
    String,
>)
    requires
        was_built(*tokenizer),
    ensures
        tables(*tokenizer).decodings[(tokens@, skip_special)] == match result {
            Ok(text) => Ok::<Seq<char>, Seq<char>>(text@),
            Err(reason) => Err::<Seq<char>, Seq<char>>(reason@),
        },
{
    tokenizer.decode(tokens, skip_special).map_err(|e| e.to_string())
}

/// Why a model has no tokenizer.
pub enum LoadError {
    /// The metadata hold no vocabulary.
    MissingTokens,
    /// The metadata hold no merge rules.
    MissingMerges,
    /// The vocabulary is not an array.
    TokensNotArray,
    /// The merge rules are not an array.
    MergesNotArray,
    /// A merge rule makes a token that is longer than any in the vocabulary, of parts that
    /// are in it, and nothing before it is refused.
    MergeTooLong,
    /// The vocabulary or the merge rules could not be written down.
    Json(serde_json::Error),
    /// The tokenizer could not be built.
    Build(String),
}

impl LoadError {
    /// The error as a text.
    pub fn message(&self) -> (text: String)
        ensures
            match *self {
                LoadError::MissingTokens => text@
                    == "Failed to find tokenizer.ggml.tokens in GGUF metadata"@,
                LoadError::MissingMerges => text@
                    == "Failed to find tokenizer.ggml.merges in GGUF metadata"@,
                LoadError::TokensNotArray => text@ == "tokenizer.ggml.tokens is not an array"@,
                LoadError::MergesNotArray => text@ == "tokenizer.ggml.merges is not an array"@,
                LoadError::MergeTooLong => text@
                    == "Tokenizer build error: a merge is longer than every token"@,
                LoadError::Json(_) => text@ == "Tokenizer build error: invalid vocabulary"@,
                LoadError::Build(reason) => text@ == "Tokenizer build error: "@ + reason@,
            },
    {
        match self {
            LoadError::MissingTokens => {
                "Failed to find tokenizer.ggml.tokens in GGUF metadata".to_owned()
            },
            LoadError::MissingMerges => {
                "Failed to find tokenizer.ggml.merges in GGUF metadata".to_owned()
            },
            LoadError::TokensNotArray => "tokenizer.ggml.tokens is not an array".to_owned(),
            LoadError::MergesNotArray => "tokenizer.ggml.merges is not an array".to_owned(),
            LoadError::MergeTooLong => {
                "Tokenizer build error: a merge is longer than every token".to_owned()
            },
            LoadError::Json(_) => "Tokenizer build error: invalid vocabulary".to_owned(),
            LoadError::Build(reason) => {
                let mut text: String = "Tokenizer build error: ".to_owned();
                text.append(reason.as_str());
                text
            },
        }
    }
}

/// The items of the vocabulary in the metadata.
pub open spec fn token_items(meta: Map<Seq<char>, MetaView>) -> Option<Seq<ItemView>> {
    array_of(meta, "tokenizer.ggml.tokens"@)
}

/// The items of the merge rules in the metadata.
pub open spec fn merge_items(meta: Map<Seq<char>, MetaView>) -> Option<Seq<ItemView>> {
    array_of(meta, "tokenizer.ggml.merges"@)
}

/// The array under a key.
pub open spec fn array_of(meta: Map<Seq<char>, MetaView>, key: Seq<char>) -> Option<
    Seq<ItemView>,
> {
    if meta.contains_key(key) {
        match meta[key] {
            MetaView::Array(items) => Some(items),
            MetaView::Item(_) => None,
        }
    } else {
        None
    }
}

/// The places of the control tokens in a vocabulary, with minus one for a token that is not
/// in it.
#[derive(Debug, Clone, Copy, PartialEq, Eq, Structural)]
pub struct ControlIds {
    pub pad: i32,
    pub eos: i32,
    pub bos: i32,
    pub turn_start: i32,
    pub turn_end: i32,
}

/// The place of a control token.
pub open spec fn control_place(vocab: Map<Seq<char>, u64>, token: Seq<char>) -> i32 {
    if vocab.contains_key(token) {
        vocab[token] as i32
    } else {
        -1i32
    }
}

/// The places of the control tokens.
pub open spec fn control_places(vocab: Map<Seq<char>, u64>) -> ControlIds {
    ControlIds {
        pad: control_place(vocab, "<pad>"@),
        eos: control_place(vocab, "<eos>"@),
        bos: control_place(vocab, "<bos>"@),
        turn_start: control_place(vocab, "<|turn>"@),
        turn_end: control_place(vocab, "<turn|>"@),
    }
}

/// A tokenizer was built from a document that describes one.
pub open spec fn was_built(tokenizer: Tokenizer) -> bool {
    exists|text: Seq<char>, vocab: Map<Seq<char>, u64>, merges: Seq<Seq<char>>| #[trigger]
        describes(text, vocab, merges) && built_tables(text) == Ok::<TokenizerView, Seq<char>>(
            tables(tokenizer),
        )
}

/// The tokenizer of a model, built from its file, and where its vocabulary has the control
/// tokens.
pub struct LoadedTokenizer {
    tokenizer: Tokenizer,
    control: ControlIds,
}

impl View for LoadedTokenizer {
    type V = TokenizerView;

    closed spec fn view(&self) -> TokenizerView {
        tables(self.tokenizer)
    }
}

impl LoadedTokenizer {
    #[verifier::type_invariant]
    spec fn built(self) -> bool {
        was_built(self.tokenizer)
    }

    /// Where the vocabulary has the control tokens.
    pub closed spec fn places(&self) -> ControlIds {
        self.control
    }

    /// Where the vocabulary has the control tokens.
    pub fn control(&self) -> (control: ControlIds)
        ensures
            control == self.places(),
    {
        self.control
    }
}

/// The texts in a list of metadata items.
fn collect_texts(items: &Vec<MetaItem>) -> (list: Vec<String>)
    ensures
        views(list@) == texts_of(item_views(items@)),
{
    let ghost all = item_views(items@);
    let mut list: Vec<String> = Vec::new();
    let mut i: usize = 0;
    assert(views(list@) =~= Seq::<Seq<char>>::empty());
    while i < items.len()
        invariant
            i <= items@.len(),
            all == item_views(items@),
            views(list@) == texts_of(all.take(i as int)),
        decreases items@.len() - i,
    {
        proof {
            assert(all.take(i + 1).drop_last() =~= all.take(i as int));
            assert(all.take(i + 1).last() == items@[i as int]@);
        }
        let ghost before = list@;
        match &items[i] {
            MetaItem::Text(text) => {
                list.push(text.as_str().to_owned());
                assert(views(list@) =~= views(before).push(text@));
            },
            _ => {},
        }
        i += 1;
    }
    assert(all.take(i as int) =~= all);
    list
}

/// What becomes of a merge rule.
#[derive(Clone, Copy, PartialEq, Eq, Structural)]
enum RuleFate {
    Builds,
    TooLong,
    Refused,
}

/// Whether a line states a version.
fn check_version_line(line: &str) -> (version: bool)
    ensures
        version == is_version_line(line@),
{
    let chars: Vec<char> = to_chars(line);
    let mark: Vec<char> = to_chars("#version");
    mark.len() <= chars.len() && chars_occur_at(&chars, &mark, 0)
}

/// Where the first space of a line stands.
fn find_space(line: &Vec<char>) -> (at: usize)
    ensures
        at == first_space(line@),
        at <= line@.len(),
{
    let mut at: usize = 0;
    while at < line.len() && line[at] != ' '
        invariant
            at <= line@.len(),
            forall|i: int| 0 <= i < at ==> #[trigger] line@[i] != ' ',
        decreases line@.len() - at,
    {
        at += 1;
    }
    proof {
        lemma_span_is(line@, |c: char| c != ' ', at as int);
    }
    at
}

/// Whether a line is a merge rule.
fn check_rule(line: &str) -> (rule: bool)
    ensures
        rule == is_rule(line@),
{
    let chars: Vec<char> = to_chars(line);
    let space: usize = find_space(&chars);
    if space == chars.len() {
        return false;
    }
    let mut i: usize = space + 1;
    while i < chars.len()
        invariant
            space < i <= chars@.len(),
            chars@ == line@,
            space == first_space(chars@),
            forall|j: int| space < j < i ==> #[trigger] chars@[j] != ' ',
        decreases chars@.len() - i,
    {
        if chars[i] == ' ' {
            assert(!is_rule(chars@));
            return false;
        }
        i += 1;
    }
    true
}

impl Vocabulary {
    /// The length in bytes of the longest entry.
    fn longest_entry(&self) -> (longest: usize)
        requires
            self.wf(),
        ensures
            forall|entry: Seq<char>| #[trigger]
                self@.contains_key(entry) ==> encode_utf8(entry).len() <= longest,
            (exists|entry: Seq<char>| #[trigger] self@.contains_key(entry)) ==> exists|
                entry: Seq<char>,
            | #[trigger] self@.contains_key(entry) && encode_utf8(entry).len() == longest,
    {
        let ghost named = pair_views(self.pairs@);
        let mut longest: usize = 0;
        let mut best: usize = 0;
        let mut k: usize = 0;
        while k < self.pairs.len()
            invariant
                k <= self.pairs@.len(),
                named == pair_views(self.pairs@),
                k > 0 ==> best < k && longest == encode_utf8(named[best as int].0).len(),
                forall|j: int|
                    0 <= j < k ==> encode_utf8((#[trigger] named[j]).0).len() <= longest,
            decreases self.pairs@.len() - k,
        {
            let len: usize = self.pairs[k].0.as_str().as_bytes().len();
            assert(named[k as int].0 == self.pairs@[k as int].0@);
            if len > longest || k == 0 {
                longest = len;
                best = k;
            }
            k += 1;
        }
        proof {
            assert forall|entry: Seq<char>| #[trigger]
                self@.contains_key(entry) implies encode_utf8(entry).len() <= longest && k > 0 by {
                lemma_pairs_map(named, entry);
            }
            if k > 0 {
                lemma_pairs_map_has(named, best as int);
            }
        }
        longest
    }

    /// What becomes of a merge rule, where the longest entry has `longest` bytes.
    fn judge_rule(&self, line: &str, longest: usize) -> (fate: RuleFate)
        requires
            is_rule(line@),
            forall|entry: Seq<char>| #[trigger]
                self@.contains_key(entry) ==> encode_utf8(entry).len() <= longest,
            (exists|entry: Seq<char>| #[trigger] self@.contains_key(entry)) ==> exists|
                entry: Seq<char>,
            | #[trigger] self@.contains_key(entry) && encode_utf8(entry).len() == longest,
        ensures
            fate == RuleFate::Builds <==> rule_builds(self@, line@),
            fate == RuleFate::TooLong <==> rule_is_too_long(self@, line@) && !rule_builds(
                self@,
                line@,
            ),
    {
        let chars: Vec<char> = to_chars(line);
        let space: usize = find_space(&chars);
        let end: usize = chars.len();
        assert(space < end);
        let left: String = slice(line, 0, space);
        let right: String = slice(line, space + 1, end);
        proof {
            assert(left@ =~= left_part(line@));
            assert(right@ =~= right_part(line@));
        }
        if !self.ids.contains_key(left.as_str()) || !self.ids.contains_key(right.as_str()) {
            return RuleFate::Refused;
        }
        let left_len: usize = left.as_str().as_bytes().len();
        let right_len: usize = right.as_str().as_bytes().len();
        let mut whole: String = left;
        whole.append(right.as_str());
        if self.ids.contains_key(whole.as_str()) {
            return RuleFate::Builds;
        }
        let ghost witness = choose|entry: Seq<char>| #[trigger]
            self@.contains_key(entry) && encode_utf8(entry).len() == longest;
        assert(self@.contains_key(left_part(line@)));
        assert(self@.contains_key(witness));
        if left_len > longest || right_len > longest - left_len {
            RuleFate::TooLong
        } else {
            RuleFate::Refused
        }
    }

    /// Whether the merge rules are too long for the vocabulary.
    fn check_merges(&self, merges: &Vec<String>) -> (too_long: bool)
        requires
            self.wf(),
        ensures
            too_long == merges_too_long(self@, views(merges@)),
    {
        let ghost lines = views(merges@);
        let mut k: usize = 0;
        while k < merges.len()
            invariant
                k <= merges@.len(),
                lines == views(merges@),
                forall|j: int|
                    0 <= j < k ==> is_version_line(#[trigger] lines[j]) || is_rule(lines[j]),
            decreases merges@.len() - k,
        {
            assert(lines[k as int] == merges@[k as int]@);
            if !check_version_line(merges[k].as_str()) && !check_rule(merges[k].as_str()) {
                return false;
            }
            k += 1;
        }
        let longest: usize = self.longest_entry();
        let mut i: usize = 0;
        while i < merges.len()
            invariant
                i <= merges@.len(),
                lines == views(merges@),
                forall|j: int|
                    0 <= j < lines.len() ==> is_version_line(#[trigger] lines[j]) || is_rule(
                        lines[j],
                    ),
                forall|j: int|
                    0 <= j < i ==> is_version_line(#[trigger] lines[j]) || rule_builds(
                        self@,
                        lines[j],
                    ),
                forall|entry: Seq<char>| #[trigger]
                    self@.contains_key(entry) ==> encode_utf8(entry).len() <= longest,
                (exists|entry: Seq<char>| #[trigger] self@.contains_key(entry)) ==> exists|
                    entry: Seq<char>,
                | #[trigger] self@.contains_key(entry) && encode_utf8(entry).len() == longest,
            decreases merges@.len() - i,
        {
            let line: &str = merges[i].as_str();
            assert(lines[i as int] == line@);
            if !check_version_line(line) {
                match self.judge_rule(line, longest) {
                    RuleFate::Builds => {},
                    RuleFate::TooLong => {
                        assert(fails_first_by_length(self@, lines, i as int));
                        return true;
                    },
                    RuleFate::Refused => {
                        proof {
                            assert forall|n: int| !#[trigger] fails_first_by_length(
                                self@,
                                lines,
                                n,
                            ) by {
                                if fails_first_by_length(self@, lines, n) {
                                    lemma_too_long_does_not_build(self@, lines[n]);
                                    if n > i {
                                        assert(is_version_line(lines[i as int]) || rule_builds(
                                            self@,
                                            lines[i as int],
                                        ));
                                    } else if n < i {
                                        assert(is_version_line(lines[n]) || rule_builds(
                                            self@,
                                            lines[n],
                                        ));
                                    }
                                }
                            }
                        }
                        return false;
                    },
                }
            }
            i += 1;
        }
        proof {
            assert forall|n: int| !#[trigger] fails_first_by_length(self@, lines, n) by {
                if fails_first_by_length(self@, lines, n) {
                    lemma_too_long_does_not_build(self@, lines[n]);
                    assert(is_version_line(lines[n]) || rule_builds(self@, lines[n]));
                }
            }
        }
        false
    }

    /// The places of the control tokens.
    pub fn control_ids(&self) -> (ids: ControlIds)
        ensures
            ids == control_places(self@),
    {
        ControlIds {
            pad: self.control_id("<pad>"),
            eos: self.control_id("<eos>"),
            bos: self.control_id("<bos>"),
            turn_start: self.control_id("<|turn>"),
            turn_end: self.control_id("<turn|>"),
        }
    }
}

/// What a rule that is too long makes is not in the vocabulary.
proof fn lemma_too_long_does_not_build(vocab: Map<Seq<char>, u64>, line: Seq<char>)
    requires
        rule_is_too_long(vocab, line),
    ensures
        !rule_builds(vocab, line),
{
    lemma_encode_add(left_part(line), right_part(line));
}

/// A name in the map comes from a pair.
proof fn lemma_pairs_map(pairs: Seq<(Seq<char>, u64)>, name: Seq<char>)
    requires
        pairs_map(pairs).contains_key(name),
    ensures
        exists|j: int| 0 <= j < pairs.len() && (#[trigger] pairs[j]).0 == name,
    decreases pairs.len(),
{
    if pairs.len() > 0 {
        if pairs.last().0 == name {
            assert(pairs[pairs.len() - 1].0 == name);
        } else {
            let rest = pairs.drop_last();
            lemma_pairs_map(rest, name);
            let j = choose|j: int| 0 <= j < rest.len() && (#[trigger] rest[j]).0 == name;
            assert(pairs[j].0 == name);
        }
    }
}

/// The name of a pair is in the map.
proof fn lemma_pairs_map_has(pairs: Seq<(Seq<char>, u64)>, at: int)
    requires
        0 <= at < pairs.len(),
    ensures
        pairs_map(pairs).contains_key(pairs[at].0),
    decreases pairs.len(),
{
    if at < pairs.len() - 1 {
        assert(pairs.drop_last()[at] == pairs[at]);
        lemma_pairs_map_has(pairs.drop_last(), at);
    }
}

/// The document that describes the tokenizer in the metadata, where serialization succeeds.
pub open spec fn described(vocab: Map<Seq<char>, u64>, merges: Seq<Seq<char>>) -> Option<
    Seq<char>,
> {
    match (json_strings(merges), json_numbers(vocab)) {
        (Some(merges_json), Some(vocab_json)) => Some(document(merges_json, vocab_json)),
        _ => None,
    }
}

/// Builds the tokenizer of a model from its header.
pub fn load_tokenizer(content: &Content) -> (result: Result<LoadedTokenizer, LoadError>)
    ensures
        ({
            let meta = header(*content).metadata;
            let has_tokens = meta.contains_key("tokenizer.ggml.tokens"@);
            let has_merges = meta.contains_key("tokenizer.ggml.merges"@);
            let arrays = token_items(meta) is Some && merge_items(meta) is Some;
            let vocab = vocabulary(token_items(meta)->0);
            let merges = texts_of(merge_items(meta)->0);
            let fits = !merges_too_long(vocab, merges);
            let text = described(vocab, merges);
            match result {
                Ok(loaded) => {
                    &&& arrays && fits && text is Some
                    &&& built_tables(text->0) == Ok::<TokenizerView, Seq<char>>(loaded@)
                    &&& loaded.places() == control_places(vocab)
                },
                Err(LoadError::MissingTokens) => !has_tokens,
                Err(LoadError::MissingMerges) => has_tokens && !has_merges,
                Err(LoadError::TokensNotArray) => {
                    has_tokens && has_merges && token_items(meta) is None
                },
                Err(LoadError::MergesNotArray) => {
                    token_items(meta) is Some && has_merges && merge_items(meta) is None
                },
                Err(LoadError::MergeTooLong) => arrays && !fits,
                Err(LoadError::Json(_)) => arrays && fits && text is None,
                Err(LoadError::Build(reason)) => {
                    &&& arrays && fits && text is Some
                    &&& built_tables(text->0) == Err::<TokenizerView, Seq<char>>(reason@)
                },
            }
        }),
{
    if metadata_item(content, "tokenizer.ggml.tokens").is_none() {
        return Err(LoadError::MissingTokens);
    }
    if metadata_item(content, "tokenizer.ggml.merges").is_none() {
        return Err(LoadError::MissingMerges);
    }
    let tokens: Vec<MetaItem> = match metadata_array(content, "tokenizer.ggml.tokens") {
        Some(items) => items,
        None => return Err(LoadError::TokensNotArray),
    };
    let rules: Vec<MetaItem> = match metadata_array(content, "tokenizer.ggml.merges") {
        Some(items) => items,
        None => return Err(LoadError::MergesNotArray),
    };
    let vocab: Vocabulary = Vocabulary::read(&tokens);
    let merges: Vec<String> = collect_texts(&rules);
    if vocab.check_merges(&merges) {
        return Err(LoadError::MergeTooLong);
    }
    let merges_json: String = match strings_to_json(&merges) {
        Ok(text) => text,
        Err(error) => return Err(LoadError::Json(error)),
    };
    let vocab_json: String = match numbers_to_json(&vocab.pairs) {
        Ok(text) => text,
        Err(error) => return Err(LoadError::Json(error)),
    };
    let text: String = write_document(merges_json.as_str(), vocab_json.as_str());
    let count: usize = tokens.len();
    proof {
        let items = item_views(tokens@);
        assert(items.len() == count);
        assert forall|a: Seq<char>, b: Seq<char>| #[trigger]
            vocab@.contains_key(a) && #[trigger] vocab@.contains_key(b) && vocab@[a]
                == vocab@[b] implies a == b by {
            law_vocabulary_is_injective(items, a, b);
        }
        assert(describes(text@, vocab@, views(merges@)));
    }
    match build_tokenizer(text.as_str()) {
        Ok(tokenizer) => Ok(LoadedTokenizer { tokenizer, control: vocab.control_ids() }),
        Err(reason) => Err(LoadError::Build(reason)),
    }
}

/// Begins an answer to a prompt: puts it into the markup of the model, takes its tokens, and
/// opens them with the token that opens every prompt.
pub fn begin(loaded: &LoadedTokenizer, prompt: &str) -> (result: Result<
    Generation,
    GenerationError,
>)
    ensures
        match loaded@.encodings[(wrapped_prompt(prompt@), false)] {
            Ok(tokens) => match result {
                Ok(generation) => {
                    &&& tokens.len() > 0
                    &&& generation.wf()
                    &&& generation.all_tokens() == seq![BOS_TOKEN] + tokens
                    &&& generation.generated() == 0
                    &&& generation.blanks() == 0
                },
                Err(error) => tokens.len() == 0 && error == GenerationError::EmptyPrompt,
            },
            Err(reason) => match result {
                Err(GenerationError::Tokenization(text)) => text@ == reason,
                _ => false,
            },
        },
{
    proof {
        use_type_invariant(loaded);
    }
    let text: String = wrap_prompt(prompt);
    match encode(&loaded.tokenizer, text.as_str(), false) {
        Ok(tokens) => Generation::start(&tokens),
        Err(reason) => Err(GenerationError::Tokenization(reason)),
    }
}

/// The text of a token, where it can be decoded. Special tokens are skipped, so that their
/// text is empty.
pub fn token_text(loaded: &LoadedTokenizer, token: u32) -> (text: Option<String>)
    ensures
        match text {
            Some(text) => decoded(loaded@, token) == Some(text@),
            None => decoded(loaded@, token) is None,
        },
{
    proof {
        use_type_invariant(loaded);
    }
    let tokens: Vec<u32> = vec![token];
    assert(tokens@ =~= seq![token]);
    match decode(&loaded.tokenizer, tokens.as_slice(), true) {
        Ok(text) => Some(text),
        Err(_) => None,
    }
}

/// What to do with a token that was chosen.
#[derive(Debug, Clone, PartialEq, Eq)]
pub enum TokenAction {
    /// The answer is over.
    Stop,
    /// Go on: the token has no text.
    Skip,
    /// Send this text on, and go on.
    Send(String),
}

/// Takes in the token that was chosen, after the model has read its input, and decides on it
/// and on its text.
pub fn take_token(loaded: &LoadedTokenizer, generation: &mut Generation, next: u32) -> (action:
    TokenAction)
    requires
        old(generation).wf(),
        old(generation).generated() < MAX_TOKENS,
    ensures
        match taken(old(generation).blanks(), next, decoded(loaded@, next)) {
            Taking::Stop => action == TokenAction::Stop,
            Taking::Skip => action == TokenAction::Skip && final(generation).blanks() == old(
                generation,
            ).blanks(),
            Taking::Send(text, blanks) => {
                &&& action matches TokenAction::Send(sent) && sent@ == text
                &&& final(generation).blanks() == blanks
            },
        },
        action != TokenAction::Stop ==> {
            &&& final(generation).wf()
            &&& final(generation).all_tokens() == old(generation).all_tokens().push(next)
            &&& final(generation).prompt_count() == old(generation).prompt_count()
            &&& final(generation).position() == old(generation).all_tokens().len()
        },
{
    if !generation.accept_token(next) {
        return TokenAction::Stop;
    }
    match token_text(loaded, next) {
        Some(text) => match generation.accept_text(text.as_str()) {
            TextAction::Stop => TokenAction::Stop,
            TextAction::Send => TokenAction::Send(text),
        },
        None => TokenAction::Skip,
    }
}

/// The vocabulary holds the texts of the list and no others, each at a position where it
/// stands.
pub proof fn law_the_vocabulary_holds_the_texts(items: Seq<ItemView>, text: Seq<char>)
    requires
        items.len() <= u64::MAX,
    ensures
        vocabulary(items).contains_key(text) <==> items.contains(ItemView::Text(text)),
        vocabulary(items).contains_key(text) ==> {
            let id = vocabulary(items)[text] as int;
            id < items.len() && items[id] == ItemView::Text(text)
        },
{
    lemma_vocabulary(items, text);
    if items.contains(ItemView::Text(text)) {
        let at = choose|i: int| 0 <= i < items.len() && items[i] == ItemView::Text(text);
        lemma_vocabulary_has(items, at, text);
    }
}

/// The texts of a list are taken item by item, in their order; what is not a text is left out.
pub proof fn law_texts_are_taken_in_order(a: Seq<ItemView>, b: Seq<ItemView>, item: ItemView)
    ensures
        texts_of(a + b) == texts_of(a) + texts_of(b),
        texts_of(seq![item]) == match item {
            ItemView::Text(text) => seq![text],
            _ => seq![],
        },
    decreases b.len(),
{
    let one = seq![item];
    assert(texts_of(one.drop_last()) =~= Seq::<Seq<char>>::empty());
    match item {
        ItemView::Text(text) => {
            assert(texts_of(one) =~= seq![text]);
        },
        _ => {},
    }
    if b.len() == 0 {
        assert(a + b =~= a);
        assert(texts_of(a) + texts_of(b) =~= texts_of(a));
    } else {
        law_texts_are_taken_in_order(a, b.drop_last(), item);
        assert((a + b).drop_last() =~= a + b.drop_last());
        assert(texts_of(a + b) =~= texts_of(a) + texts_of(b));
    }
}

/// Where no name comes twice, the map of a list of pairs has each name with its number, and
/// nothing else.
pub proof fn law_pairs_are_kept(pairs: Seq<(Seq<char>, u64)>, name: Seq<char>, number: u64)
    requires
        forall|i: int, j: int|
            0 <= i < j < pairs.len() ==> (#[trigger] pairs[i]).0 != (#[trigger] pairs[j]).0,
    ensures
        pairs_map(pairs).contains_pair(name, number) <==> pairs.contains((name, number)),
    decreases pairs.len(),
{
    if pairs.len() > 0 {
        let rest = pairs.drop_last();
        assert forall|i: int, j: int| 0 <= i < j < rest.len() implies (#[trigger] rest[i]).0 != (
        #[trigger] rest[j]).0 by {
            assert(pairs[i].0 != pairs[j].0);
        }
        law_pairs_are_kept(rest, name, number);
        if rest.contains((name, number)) {
            let i = choose|i: int| 0 <= i < rest.len() && rest[i] == (name, number);
            assert(pairs[i].0 != pairs[pairs.len() - 1].0);
            assert(pairs[i] == (name, number));
        }
        if pairs.contains((name, number)) {
            let i = choose|i: int| 0 <= i < pairs.len() && pairs[i] == (name, number);
            if i < rest.len() {
                assert(rest[i] == (name, number));
            }
        }
        if pairs.last() == (name, number) {
            assert(pairs[pairs.len() - 1] == (name, number));
        }
    }
}

/// A document holds the merge rules and the vocabulary in full, and nothing else in it depends
/// on them.
pub proof fn law_documents_hold_rules_and_vocabulary(
    merges: Seq<char>,
    vocab: Seq<char>,
    other_merges: Seq<char>,
    other_vocab: Seq<char>,
) -> (parts: (Seq<char>, Seq<char>, Seq<char>))
    ensures
        document(merges, vocab) == parts.0 + merges + parts.1 + vocab + parts.2,
        document(other_merges, other_vocab) == parts.0 + other_merges + parts.1 + other_vocab
            + parts.2,
{
    (document_head(), document_middle(), document_tail())
}

/// A line of two parts with one space between them is a merge rule of these parts; a merge
/// rule is such a line.
pub proof fn law_rules_part_at_their_space(line: Seq<char>, left: Seq<char>, right: Seq<char>)
    requires
        !left.contains(' '),
        !right.contains(' '),
    ensures
        line == left + seq![' '] + right <==> is_rule(line) && left_part(line) == left
            && right_part(line) == right,
{
    let class = |c: char| c != ' ';
    let n = left.len() as int;
    if line == left + seq![' '] + right {
        assert forall|i: int| 0 <= i < n implies class(#[trigger] line[i]) by {
            assert(line[i] == left[i]);
            assert(left.contains(left[i]));
        }
        lemma_span_is(line, class, n);
        assert(first_space(line) == n);
        assert forall|i: int| n < i < line.len() implies #[trigger] line[i] != ' ' by {
            assert(line[i] == right[i - n - 1]);
            assert(right.contains(right[i - n - 1]));
        }
        assert(left_part(line) =~= left);
        assert(right_part(line) =~= right);
    }
    if is_rule(line) && left_part(line) == left && right_part(line) == right {
        lemma_span(line, class);
        assert(line =~= left_part(line) + seq![' '] + right_part(line));
    }
}

/// A line states a version if it begins with `#version`, and only then.
pub proof fn law_versions_are_told_by_their_beginning(line: Seq<char>, rest: Seq<char>)
    ensures
        is_version_line("#version"@ + rest),
        is_version_line(line) ==> line == "#version"@ + line.skip(8),
{
    reveal_strlit("#version");
    assert(("#version"@ + rest).subrange(0, 8) =~= "#version"@);
    if is_version_line(line) {
        assert(line =~= line.subrange(0, 8) + line.skip(8));
    }
}

/// A merge rule can be used if both its parts and what they make are in the vocabulary, and
/// only then.
pub proof fn law_usable_rules_stay_in_the_vocabulary(
    vocab: Map<Seq<char>, u64>,
    left: Seq<char>,
    right: Seq<char>,
)
    requires
        !left.contains(' '),
        !right.contains(' '),
    ensures
        rule_builds(vocab, left + seq![' '] + right) <==> {
            &&& vocab.contains_key(left)
            &&& vocab.contains_key(right)
            &&& vocab.contains_key(left + right)
        },
{
    law_rules_part_at_their_space(left + seq![' '] + right, left, right);
}

/// Where a list of rules is refused for the length of one, a line of it is two parts with one
/// space between them, both in a vocabulary in which every entry has fewer bytes than they have
/// together, and every line before it states a version or can be used.
pub proof fn law_only_long_rules_are_refused(
    vocab: Map<Seq<char>, u64>,
    merges: Seq<Seq<char>>,
) -> (found: (int, Seq<char>, Seq<char>))
    requires
        merges_too_long(vocab, merges),
    ensures
        0 <= found.0 < merges.len(),
        merges[found.0] == found.1 + seq![' '] + found.2,
        vocab.contains_key(found.1),
        vocab.contains_key(found.2),
        forall|entry: Seq<char>| #[trigger]
            vocab.contains_key(entry) ==> encode_utf8(entry).len() < encode_utf8(
                found.1 + found.2,
            ).len(),
        forall|j: int|
            0 <= j < found.0 ==> is_version_line(#[trigger] merges[j]) || rule_builds(
                vocab,
                merges[j],
            ),
{
    let i = choose|i: int| #[trigger] fails_first_by_length(vocab, merges, i);
    let line = merges[i];
    let left = left_part(line);
    let right = right_part(line);
    lemma_span(line, |c: char| c != ' ');
    assert(is_rule(line));
    assert(line =~= left + seq![' '] + right);
    lemma_encode_add(left, right);
    (i, left, right)
}

/// A list of rules is refused where the first of them that cannot be used has both its parts
/// in the vocabulary, and these have together more bytes than any entry.
pub proof fn law_the_first_long_rule_is_refused(
    vocab: Map<Seq<char>, u64>,
    merges: Seq<Seq<char>>,
    i: int,
    left: Seq<char>,
    right: Seq<char>,
)
    requires
        forall|k: int|
            0 <= k < merges.len() ==> is_version_line(#[trigger] merges[k]) || is_rule(merges[k]),
        0 <= i < merges.len(),
        !left.contains(' '),
        !right.contains(' '),
        merges[i] == left + seq![' '] + right,
        !is_version_line(merges[i]),
        vocab.contains_key(left),
        vocab.contains_key(right),
        forall|entry: Seq<char>| #[trigger]
            vocab.contains_key(entry) ==> encode_utf8(entry).len() < encode_utf8(
                left + right,
            ).len(),
        forall|j: int|
            0 <= j < i ==> is_version_line(#[trigger] merges[j]) || rule_builds(vocab, merges[j]),
    ensures
        merges_too_long(vocab, merges),
{
    law_rules_part_at_their_space(merges[i], left, right);
    lemma_encode_add(left, right);
    assert(fails_first_by_length(vocab, merges, i));
}

/// The control tokens are found under their names; a place that fits is taken as it is, and a
/// token that the vocabulary lacks has minus one.
pub proof fn law_control_tokens_are_found_by_name(vocab: Map<Seq<char>, u64>, place: u64)
    requires
        place <= i32::MAX,
    ensures
        ({
            let found = control_places(vocab);
            &&& vocab.contains_pair("<pad>"@, place) ==> found.pad == place
            &&& vocab.contains_pair("<eos>"@, place) ==> found.eos == place
            &&& vocab.contains_pair("<bos>"@, place) ==> found.bos == place
            &&& vocab.contains_pair("<|turn>"@, place) ==> found.turn_start == place
            &&& vocab.contains_pair("<turn|>"@, place) ==> found.turn_end == place
            &&& !vocab.contains_key("<pad>"@) ==> found.pad == -1
            &&& !vocab.contains_key("<eos>"@) ==> found.eos == -1
            &&& !vocab.contains_key("<bos>"@) ==> found.bos == -1
            &&& !vocab.contains_key("<|turn>"@) ==> found.turn_start == -1
            &&& !vocab.contains_key("<turn|>"@) ==> found.turn_end == -1
        }),
{
}

/// The vocabulary and the merge rules are the arrays under their keys, and nothing else.
pub proof fn law_arrays_are_found_under_their_keys(
    meta: Map<Seq<char>, MetaView>,
    items: Seq<ItemView>,
)
    ensures
        token_items(meta) == Some(items) <==> meta.contains_pair(
            "tokenizer.ggml.tokens"@,
            MetaView::Array(items),
        ),
        merge_items(meta) == Some(items) <==> meta.contains_pair(
            "tokenizer.ggml.merges"@,
            MetaView::Array(items),
        ),
{
}

/// The text of a token is what the tokenizer gives for it alone with special tokens skipped,
/// unchanged.
pub proof fn law_tokens_are_decoded_alone(
    tokenizer: TokenizerView,
    token: u32,
    text: Seq<char>,
)
    ensures
        decoded(tokenizer, token) == Some(text) <==> tokenizer.decodings[(seq![token], true)]
            == Ok::<Seq<char>, Seq<char>>(text),
{
}

} // verus!
