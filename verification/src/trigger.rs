//! Recognising a chat message that calls the bot by name.

use vstd::prelude::*;
use vstd::string::StringExecFns;

verus! {

/// What `str::to_lowercase` returns for a text.
pub uninterp spec fn lowercased(text: Seq<char>) -> Seq<char>;

/// `text[from..to]` is one of the pieces that splitting `text` at every
/// space gives: it holds no space and is bounded on each side by a space or
/// by an end of the text.
pub open spec fn is_piece(text: Seq<char>, from: int, to: int) -> bool {
    &&& 0 <= from <= to <= text.len()
    &&& from == 0 || text[from - 1] == ' '
    &&& to == text.len() || text[to] == ' '
    &&& forall|k: int| from <= k < to ==> text[k] != ' '
}

/// One of the pieces of `text` is `word`.
pub open spec fn has_word(text: Seq<char>, word: Seq<char>) -> bool {
    exists|from: int, to: int| #[trigger] is_piece(text, from, to) && text.subrange(from, to) == word
}

/// One of the pieces of `text` is a name of the bot.
pub open spec fn names_bot(text: Seq<char>) -> bool {
    has_word(text, "orbi"@) || has_word(text, "@orbitalz_bot"@)
}

/// A piece is fixed by where it ends.
proof fn lemma_piece_start(text: Seq<char>, first: int, second: int, to: int)
    requires
        is_piece(text, first, to),
        is_piece(text, second, to),
    ensures
        first == second,
{
    if first < second {
        assert(text[second - 1] == ' ');
    } else if second < first {
        assert(text[first - 1] == ' ');
    }
}

/// Whether a word of `text`, split at spaces, is a name of the bot. Case
/// matters: the names are in lower case.
pub fn mentions_bot(text: &str) -> (mentioned: bool)
    ensures
        mentioned == names_bot(text@),
{
    let short = String::from_str("orbi");
    let long = String::from_str("@orbitalz_bot");
    let len: usize = text.unicode_len();
    let mut start: usize = 0;
    let mut i: usize = 0;
    loop
        invariant
            start <= i <= len,
            len == text@.len(),
            short@ == "orbi"@,
            long@ == "@orbitalz_bot"@,
            start == 0 || text@[start - 1] == ' ',
            forall|k: int| start <= k < i ==> text@[k] != ' ',
            forall|from: int, to: int|
                #[trigger] is_piece(text@, from, to) && to < i ==> text@.subrange(from, to)
                    != short@ && text@.subrange(from, to) != long@,
        decreases len - i,
    {
        let at_end = i == len;
        if at_end || text.get_char(i) == ' ' {
            let piece = text.substring_char(start, i).to_owned();
            assert(is_piece(text@, start as int, i as int));
            if piece == short || piece == long {
                return true;
            }
            proof {
                assert forall|from: int, to: int|
                    #[trigger] is_piece(text@, from, to) && to < i + 1 implies text@.subrange(
                    from,
                    to,
                ) != short@ && text@.subrange(from, to) != long@ by {
                    if to == i {
                        lemma_piece_start(text@, from, start as int, to);
                    }
                }
            }
            if at_end {
                return false;
            }
            start = i + 1;
        }
        i = i + 1;
    }
}

/// Whether a message calls the bot: whether one of its words, split at
/// spaces and compared without regard to case, is a name of the bot.
pub fn bot_mentioned(text: &str) -> (mentioned: bool)
    ensures
        mentioned == names_bot(lowercased(text@)),
{
    let lowered = lowercase(text);
    mentions_bot(lowered.as_str())
}

/// Calls `str::to_lowercase`. Trusted: the string returned is the named
/// lower-case form of the text.
#[verifier::external_body]
fn lowercase(text: &str) -> (lowered: String)
    ensures
        lowered@ == lowercased(text@),
{
    text.to_lowercase()
}

} // verus!
