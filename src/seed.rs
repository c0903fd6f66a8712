//! BIP39 seed phrases: generation, parsing and the 64-byte seed.
use vstd::prelude::*;
use vstd::string::*;
use crate::crypto::random_bytes;

verus! {

#[verifier::external_type_specification]
#[verifier::external_body]
pub struct ExMnemonic(bip39::Mnemonic);

#[verifier::external_type_specification]
#[verifier::external_body]
pub struct ExBip39Error(bip39::Error);

/// The text of a mnemonic: its words joined by single spaces.
pub uninterp spec fn mnemonic_text(m: bip39::Mnemonic) -> Seq<char>;

/// What parsing normalized text gives: the text of the mnemonic read, or `None` when the
/// words, their number or the checksum are refused.
pub uninterp spec fn parsed_mnemonic(s: Seq<char>) -> Option<Seq<char>>;

/// The 64-byte BIP39 seed of a mnemonic text and passphrase (PBKDF2-HMAC-SHA512, 2048 rounds).
pub uninterp spec fn bip39_seed_of(text: Seq<char>, passphrase: Seq<char>) -> Seq<u8>;

/// The whitespace-separated words of a text.
pub uninterp spec fn words_of(s: Seq<char>) -> Seq<Seq<char>>;

/// Relies on `bip39::Mnemonic::from_entropy`: it accepts 128 to 256 bits of entropy in
/// whole multiples of 32 bits and gives three words per four bytes; the text of the
/// result is single-spaced words, and parsing it gives the same mnemonic back.
#[verifier::external_body]
fn mnemonic_from_entropy(entropy: &[u8]) -> (r: Result<bip39::Mnemonic, bip39::Error>)
    ensures
        r is Ok <==> (entropy@.len() % 4 == 0 && 16 <= entropy@.len() <= 32),
        r matches Ok(m) ==> words_of(mnemonic_text(m)).len() == entropy@.len() * 3 / 4,
        r matches Ok(m) ==> join_spaced(words_of(mnemonic_text(m))) == mnemonic_text(m),
        r matches Ok(m) ==> parsed_mnemonic(mnemonic_text(m)) == Some(mnemonic_text(m)),
{
    bip39::Mnemonic::from_entropy(entropy)
}

/// Relies on `bip39::Mnemonic::parse_normalized`, which depends on the text alone.
#[verifier::external_body]
fn mnemonic_parse(s: &str) -> (r: Result<bip39::Mnemonic, bip39::Error>)
    ensures
        r is Ok <==> parsed_mnemonic(s@) is Some,
        r matches Ok(m) ==> parsed_mnemonic(s@) == Some(mnemonic_text(m)),
{
    bip39::Mnemonic::parse_normalized(s)
}

/// Relies on `bip39::Mnemonic::to_seed`: PBKDF2 over the mnemonic's text and the passphrase.
#[verifier::external_body]
fn mnemonic_seed(m: &bip39::Mnemonic, passphrase: &str) -> (r: [u8; 64])
    ensures
        r@ == bip39_seed_of(mnemonic_text(*m), passphrase@),
{
    m.to_seed(passphrase)
}

/// Relies on the `Display` of `bip39::Mnemonic` (`to_string`): the words joined by spaces.
#[verifier::external_body]
fn mnemonic_string(m: &bip39::Mnemonic) -> (r: String)
    ensures
        r@ == mnemonic_text(*m),
{
    m.to_string()
}

/// The views of strings.
pub open spec fn str_views(v: Seq<&str>) -> Seq<Seq<char>> {
    v.map_values(|w: &str| w@)
}

/// The views of owned strings.
pub open spec fn string_views(v: Seq<String>) -> Seq<Seq<char>> {
    v.map_values(|w: String| w@)
}

/// Words joined by single spaces.
pub open spec fn join_spaced(ws: Seq<Seq<char>>) -> Seq<char>
    decreases ws.len(),
{
    if ws.len() == 0 {
        Seq::empty()
    } else if ws.len() == 1 {
        ws[0]
    } else {
        join_spaced(ws.drop_last()) + seq![' '] + ws.last()
    }
}

/// Relies on `bip39::Mnemonic::word_iter`: the mnemonic's words in order, which joined by
/// spaces are its text.
#[verifier::external_body]
fn mnemonic_words(m: &bip39::Mnemonic) -> (r: Vec<&'static str>)
    ensures
        join_spaced(str_views(r@)) == mnemonic_text(*m),
{
    m.word_iter().collect()
}

/// Relies on `str::split_whitespace`: the words between runs of whitespace.
#[verifier::external_body]
fn split_words(s: &str) -> (r: Vec<String>)
    ensures
        string_views(r@) == words_of(s@),
{
    s.split_whitespace().map(|w| w.to_string()).collect()
}

/// Relies on `bip39::Language::English.word_list()`: the 2048 English words.
#[verifier::external_body]
fn english_words() -> (r: Vec<&'static str>)
    ensures
        r@.len() == 2048,
{
    bip39::Language::English.word_list().to_vec()
}

/// Joins words with single spaces.
pub fn join_words(words: &Vec<String>) -> (r: String)
    ensures
        r@ == join_spaced(string_views(words@)),
{
    let mut out = String::new();
    let mut i: usize = 0;
    proof {
        reveal_strlit(" ");
    }
    while i < words.len()
        invariant
            i <= words@.len(),
            out@ == join_spaced(string_views(words@.subrange(0, i as int))),
        decreases words@.len() - i,
    {
        let ghost before = out@;
        proof {
            reveal_strlit(" ");
        }
        if i > 0 {
            out.append(" ");
        }
        out.append(words[i].as_str());
        proof {
            if i > 0 {
                assert(out@ =~= before + seq![' '] + words@[i as int]@);
            }
            assert(string_views(words@.subrange(0, i + 1)).drop_last() =~= string_views(words@.subrange(0, i as int)));
            assert(string_views(words@.subrange(0, i + 1)).last() == words@[i as int]@);
            if i == 0 {
                assert(out@ =~= join_spaced(string_views(words@.subrange(0, 1))));
            } else {
                assert(string_views(words@.subrange(0, i + 1)).len() == i + 1);
                assert(out@ =~= join_spaced(string_views(words@.subrange(0, i + 1))));
            }
        }
        i = i + 1;
    }
    assert(words@.subrange(0, i as int) =~= words@);
    out
}

/// The whitespace-normalized text of a phrase: its words joined by single spaces.
pub open spec fn normalized_phrase(s: Seq<char>) -> Seq<char> {
    join_spaced(words_of(s))
}

/// Whether `s` starts with `prefix`.
pub open spec fn has_prefix(s: Seq<char>, prefix: Seq<char>) -> bool {
    prefix.len() <= s.len() && s.subrange(0, prefix.len() as int) == prefix
}

fn starts_with(s: &str, prefix: &str) -> (r: bool)
    ensures
        r == has_prefix(s@, prefix@),
{
    let n = prefix.unicode_len();
    if n > s.unicode_len() {
        return false;
    }
    let mut i: usize = 0;
    while i < n
        invariant
            n == prefix@.len(),
            n <= s@.len(),
            i <= n,
            forall|j: int| 0 <= j < i ==> s@[j] == prefix@[j],
        decreases n - i,
    {
        if s.get_char(i) != prefix.get_char(i) {
            return false;
        }
        i = i + 1;
    }
    assert(s@.subrange(0, n as int) =~= prefix@);
    true
}

/// A BIP39 mnemonic.
pub struct SeedPhrase {
    mnemonic: bip39::Mnemonic,
}

impl SeedPhrase {
    /// The mnemonic's text.
    pub closed spec fn text(&self) -> Seq<char> {
        mnemonic_text(self.mnemonic)
    }

    /// A fresh random mnemonic of 12, 15, 18, 21 or 24 words; 10 is served with 12 words.
    pub fn generate(word_count: usize) -> (r: Result<SeedPhrase, crate::identity::IdentityError>)
        ensures
            r is Ok <==> (word_count == 10 || word_count == 12 || word_count == 15 || word_count == 18
                || word_count == 21 || word_count == 24),
            r matches Err(e) ==> e is InvalidSeedPhrase,
            r matches Ok(sp) ==> words_of(sp.text()).len() == (if word_count == 10 { 12 } else { word_count }),
            r matches Ok(sp) ==> normalized_phrase(sp.text()) == sp.text(),
            r matches Ok(sp) ==> parsed_mnemonic(sp.text()) == Some(sp.text()),
    {
        let entropy_bits: usize = if word_count == 10 || word_count == 12 {
            128
        } else if word_count == 15 {
            160
        } else if word_count == 18 {
            192
        } else if word_count == 21 {
            224
        } else if word_count == 24 {
            256
        } else {
            return Err(
                crate::identity::IdentityError::InvalidSeedPhrase(
                    String::from_str("Word count must be 12, 15, 18, 21, or 24"),
                ),
            );
        };
        let entropy = random_bytes(entropy_bits / 8);
        match mnemonic_from_entropy(entropy.as_slice()) {
            Ok(mnemonic) => Ok(SeedPhrase { mnemonic }),
            Err(_) => Err(crate::identity::IdentityError::InvalidSeedPhrase(String::from_str("bad entropy"))),
        }
    }

    /// Parses a phrase after collapsing its whitespace to single spaces.
    pub fn from_phrase(phrase: &str) -> (r: Result<SeedPhrase, crate::identity::IdentityError>)
        ensures
            r is Ok <==> parsed_mnemonic(normalized_phrase(phrase@)) is Some,
            r matches Ok(sp) ==> parsed_mnemonic(normalized_phrase(phrase@)) == Some(sp.text()),
            r matches Err(e) ==> e is InvalidSeedPhrase,
    {
        let words = split_words(phrase);
        let normalized = join_words(&words);
        match mnemonic_parse(normalized.as_str()) {
            Ok(mnemonic) => Ok(SeedPhrase { mnemonic }),
            Err(_) => Err(crate::identity::IdentityError::InvalidSeedPhrase(String::from_str("invalid seed phrase"))),
        }
    }

    /// The 64-byte seed for a passphrase.
    pub fn to_seed(&self, passphrase: &str) -> (r: [u8; 64])
        ensures
            r@ == bip39_seed_of(self.text(), passphrase@),
    {
        mnemonic_seed(&self.mnemonic, passphrase)
    }

    /// The words joined by spaces.
    pub fn to_string(&self) -> (r: String)
        ensures
            r@ == self.text(),
    {
        mnemonic_string(&self.mnemonic)
    }

    /// The words in order.
    pub fn words(&self) -> (r: Vec<&'static str>)
        ensures
            join_spaced(str_views(r@)) == self.text(),
    {
        mnemonic_words(&self.mnemonic)
    }

    /// Whether the phrase parses.
    pub fn validate(phrase: &str) -> (r: bool)
        ensures
            r == parsed_mnemonic(normalized_phrase(phrase@)) is Some,
    {
        let words = split_words(phrase);
        let normalized = join_words(&words);
        mnemonic_parse(normalized.as_str()).is_ok()
    }

    /// Up to five words of the English list that start with `prefix`, in list order.
    pub fn suggest_word(prefix: &str) -> (r: Vec<&'static str>)
        ensures
            r@.len() <= 5,
            forall|i: int| 0 <= i < r@.len() ==> has_prefix(#[trigger] r@[i]@, prefix@),
    {
        let list = english_words();
        let mut out: Vec<&'static str> = Vec::new();
        let mut i: usize = 0;
        while i < list.len() && out.len() < 5
            invariant
                i <= list@.len(),
                out@.len() <= 5,
                forall|j: int| 0 <= j < out@.len() ==> has_prefix(#[trigger] out@[j]@, prefix@),
            decreases list@.len() - i,
        {
            let w = list[i];
            if starts_with(w, prefix) {
                out.push(w);
            }
            i = i + 1;
        }
        out
    }
}

} // verus!
