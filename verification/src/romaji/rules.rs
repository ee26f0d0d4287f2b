//! The romaji spelling table. A syllable is spelled as an onset (nothing, one or
//! two consonant letters) followed by a vowel letter; the onset selects a row of
//! kana and the vowel a kana in that row.
use vstd::prelude::*;

verus! {

/// A row of the kana table.
#[derive(Clone, Copy, PartialEq, Eq, Structural)]
pub enum Row {
    /// One kana for each of `a`, `i`, `u`, `e`, `o`.
    Plain(char, char, char, char, char),
    /// The kana followed by a small kana: `ゃ`, `ぃ`, `ゅ`, `ぇ`, `ょ`.
    Glide(char),
    /// As `Glide`, with the kana alone for `i`.
    Soft(char),
    /// The kana followed by a small vowel, alone for `u`.
    Blend(char),
    /// `や`, `い`, `ゆ`, `いぇ`, `よ`.
    Y,
    /// `わ`, `うぃ`, `う`, `うぇ`, `を`.
    W,
    /// Only the small kana `ゃ`, `ゅ`, `ょ`.
    SmallY,
    /// Only the small kana `っ`, for `u`.
    SmallTsu,
}

/// The row that a one-letter onset selects.
pub open spec fn row_of_letter(c: char) -> Option<Row> {
    match c {
        'k' => Some(Row::Plain('か', 'き', 'く', 'け', 'こ')),
        's' => Some(Row::Plain('さ', 'し', 'す', 'せ', 'そ')),
        't' => Some(Row::Plain('た', 'ち', 'つ', 'て', 'と')),
        'n' => Some(Row::Plain('な', 'に', 'ぬ', 'ね', 'の')),
        'h' => Some(Row::Plain('は', 'ひ', 'ふ', 'へ', 'ほ')),
        'm' => Some(Row::Plain('ま', 'み', 'む', 'め', 'も')),
        'y' => Some(Row::Y),
        'r' => Some(Row::Plain('ら', 'り', 'る', 'れ', 'ろ')),
        'w' => Some(Row::W),
        'g' => Some(Row::Plain('が', 'ぎ', 'ぐ', 'げ', 'ご')),
        'z' => Some(Row::Plain('ざ', 'じ', 'ず', 'ぜ', 'ぞ')),
        'd' => Some(Row::Plain('だ', 'ぢ', 'づ', 'で', 'ど')),
        'b' => Some(Row::Plain('ば', 'び', 'ぶ', 'べ', 'ぼ')),
        'p' => Some(Row::Plain('ぱ', 'ぴ', 'ぷ', 'ぺ', 'ぽ')),
        'c' => Some(Row::Plain('か', 'し', 'く', 'せ', 'こ')),
        'l' => Some(Row::Plain('ぁ', 'ぃ', 'ぅ', 'ぇ', 'ぉ')),
        'x' => Some(Row::Plain('ぁ', 'ぃ', 'ぅ', 'ぇ', 'ぉ')),
        'j' => Some(Row::Soft('じ')),
        'f' => Some(Row::Blend('ふ')),
        'v' => Some(Row::Blend('ゔ')),
        'q' => Some(Row::Blend('く')),
        _ => None,
    }
}

fn find_row_of_letter(c: char) -> (r: Option<Row>)
    ensures
        r == row_of_letter(c),
{
    match c {
        'k' => Some(Row::Plain('か', 'き', 'く', 'け', 'こ')),
        's' => Some(Row::Plain('さ', 'し', 'す', 'せ', 'そ')),
        't' => Some(Row::Plain('た', 'ち', 'つ', 'て', 'と')),
        'n' => Some(Row::Plain('な', 'に', 'ぬ', 'ね', 'の')),
        'h' => Some(Row::Plain('は', 'ひ', 'ふ', 'へ', 'ほ')),
        'm' => Some(Row::Plain('ま', 'み', 'む', 'め', 'も')),
        'y' => Some(Row::Y),
        'r' => Some(Row::Plain('ら', 'り', 'る', 'れ', 'ろ')),
        'w' => Some(Row::W),
        'g' => Some(Row::Plain('が', 'ぎ', 'ぐ', 'げ', 'ご')),
        'z' => Some(Row::Plain('ざ', 'じ', 'ず', 'ぜ', 'ぞ')),
        'd' => Some(Row::Plain('だ', 'ぢ', 'づ', 'で', 'ど')),
        'b' => Some(Row::Plain('ば', 'び', 'ぶ', 'べ', 'ぼ')),
        'p' => Some(Row::Plain('ぱ', 'ぴ', 'ぷ', 'ぺ', 'ぽ')),
        'c' => Some(Row::Plain('か', 'し', 'く', 'せ', 'こ')),
        'l' => Some(Row::Plain('ぁ', 'ぃ', 'ぅ', 'ぇ', 'ぉ')),
        'x' => Some(Row::Plain('ぁ', 'ぃ', 'ぅ', 'ぇ', 'ぉ')),
        'j' => Some(Row::Soft('じ')),
        'f' => Some(Row::Blend('ふ')),
        'v' => Some(Row::Blend('ゔ')),
        'q' => Some(Row::Blend('く')),
        _ => None,
    }
}

/// The row that a two-letter onset selects.
pub open spec fn row_of_pair(first: char, second: char) -> Option<Row> {
    if second == 'y' {
        match first {
            'k' => Some(Row::Glide('き')),
            's' => Some(Row::Glide('し')),
            't' => Some(Row::Glide('ち')),
            'c' => Some(Row::Glide('ち')),
            'n' => Some(Row::Glide('に')),
            'h' => Some(Row::Glide('ひ')),
            'm' => Some(Row::Glide('み')),
            'r' => Some(Row::Glide('り')),
            'g' => Some(Row::Glide('ぎ')),
            'z' => Some(Row::Glide('じ')),
            'j' => Some(Row::Glide('じ')),
            'd' => Some(Row::Glide('ぢ')),
            'b' => Some(Row::Glide('び')),
            'p' => Some(Row::Glide('ぴ')),
            'f' => Some(Row::Glide('ふ')),
            'l' => Some(Row::SmallY),
            'x' => Some(Row::SmallY),
            _ => None,
        }
    } else if second == 'h' {
        match first {
            's' => Some(Row::Soft('し')),
            'c' => Some(Row::Soft('ち')),
            't' => Some(Row::Glide('て')),
            'd' => Some(Row::Glide('で')),
            _ => None,
        }
    } else if first == 't' && second == 's' {
        Some(Row::Blend('つ'))
    } else if (first == 'l' || first == 'x') && second == 't' {
        Some(Row::SmallTsu)
    } else {
        None
    }
}

fn find_row_of_pair(first: char, second: char) -> (r: Option<Row>)
    ensures
        r == row_of_pair(first, second),
{
    if second == 'y' {
        match first {
            'k' => Some(Row::Glide('き')),
            's' => Some(Row::Glide('し')),
            't' => Some(Row::Glide('ち')),
            'c' => Some(Row::Glide('ち')),
            'n' => Some(Row::Glide('に')),
            'h' => Some(Row::Glide('ひ')),
            'm' => Some(Row::Glide('み')),
            'r' => Some(Row::Glide('り')),
            'g' => Some(Row::Glide('ぎ')),
            'z' => Some(Row::Glide('じ')),
            'j' => Some(Row::Glide('じ')),
            'd' => Some(Row::Glide('ぢ')),
            'b' => Some(Row::Glide('び')),
            'p' => Some(Row::Glide('ぴ')),
            'f' => Some(Row::Glide('ふ')),
            'l' => Some(Row::SmallY),
            'x' => Some(Row::SmallY),
            _ => None,
        }
    } else if second == 'h' {
        match first {
            's' => Some(Row::Soft('し')),
            'c' => Some(Row::Soft('ち')),
            't' => Some(Row::Glide('て')),
            'd' => Some(Row::Glide('で')),
            _ => None,
        }
    } else if first == 't' && second == 's' {
        Some(Row::Blend('つ'))
    } else if (first == 'l' || first == 'x') && second == 't' {
        Some(Row::SmallTsu)
    } else {
        None
    }
}

/// The row that an onset selects.
pub open spec fn row_of(onset: Seq<char>) -> Option<Row> {
    if onset.len() == 0 {
        Some(Row::Plain('あ', 'い', 'う', 'え', 'お'))
    } else if onset.len() == 1 {
        row_of_letter(onset[0])
    } else if onset.len() == 2 {
        row_of_pair(onset[0], onset[1])
    } else {
        None
    }
}

/// The row that the first `len` letters of `letters` select.
pub fn find_row(letters: &[char], len: usize) -> (r: Option<Row>)
    requires
        len <= letters.len(),
    ensures
        r == row_of(letters@.take(len as int)),
{
    if len == 0 {
        Some(Row::Plain('あ', 'い', 'う', 'え', 'お'))
    } else if len == 1 {
        find_row_of_letter(letters[0])
    } else if len == 2 {
        find_row_of_pair(letters[0], letters[1])
    } else {
        None
    }
}

/// The kana of a row for a vowel, if the row has one.
pub open spec fn kana_in_row(row: Row, vowel: char) -> Option<Seq<char>> {
    match row {
        Row::Plain(a, i, u, e, o) => match vowel {
            'a' => Some(seq![a]),
            'i' => Some(seq![i]),
            'u' => Some(seq![u]),
            'e' => Some(seq![e]),
            'o' => Some(seq![o]),
            _ => None,
        },
        Row::Glide(k) => match vowel {
            'a' => Some(seq![k, 'ゃ']),
            'i' => Some(seq![k, 'ぃ']),
            'u' => Some(seq![k, 'ゅ']),
            'e' => Some(seq![k, 'ぇ']),
            'o' => Some(seq![k, 'ょ']),
            _ => None,
        },
        Row::Soft(k) => match vowel {
            'a' => Some(seq![k, 'ゃ']),
            'i' => Some(seq![k]),
            'u' => Some(seq![k, 'ゅ']),
            'e' => Some(seq![k, 'ぇ']),
            'o' => Some(seq![k, 'ょ']),
            _ => None,
        },
        Row::Blend(k) => match vowel {
            'a' => Some(seq![k, 'ぁ']),
            'i' => Some(seq![k, 'ぃ']),
            'u' => Some(seq![k]),
            'e' => Some(seq![k, 'ぇ']),
            'o' => Some(seq![k, 'ぉ']),
            _ => None,
        },
        Row::Y => match vowel {
            'a' => Some(seq!['や']),
            'i' => Some(seq!['い']),
            'u' => Some(seq!['ゆ']),
            'e' => Some(seq!['い', 'ぇ']),
            'o' => Some(seq!['よ']),
            _ => None,
        },
        Row::W => match vowel {
            'a' => Some(seq!['わ']),
            'i' => Some(seq!['う', 'ぃ']),
            'u' => Some(seq!['う']),
            'e' => Some(seq!['う', 'ぇ']),
            'o' => Some(seq!['を']),
            _ => None,
        },
        Row::SmallY => match vowel {
            'a' => Some(seq!['ゃ']),
            'u' => Some(seq!['ゅ']),
            'o' => Some(seq!['ょ']),
            _ => None,
        },
        Row::SmallTsu => match vowel {
            'u' => Some(seq!['っ']),
            _ => None,
        },
    }
}

/// Finds the kana of a row for a vowel.
pub fn find_kana(row: Row, vowel: char) -> (r: Option<Vec<char>>)
    ensures
        r is Some <==> kana_in_row(row, vowel) is Some,
        r is Some ==> r->0@ == kana_in_row(row, vowel)->0,
{
    match row {
        Row::Plain(a, i, u, e, o) => match vowel {
            'a' => Some(vec![a]),
            'i' => Some(vec![i]),
            'u' => Some(vec![u]),
            'e' => Some(vec![e]),
            'o' => Some(vec![o]),
            _ => None,
        },
        Row::Glide(k) => match vowel {
            'a' => Some(vec![k, 'ゃ']),
            'i' => Some(vec![k, 'ぃ']),
            'u' => Some(vec![k, 'ゅ']),
            'e' => Some(vec![k, 'ぇ']),
            'o' => Some(vec![k, 'ょ']),
            _ => None,
        },
        Row::Soft(k) => match vowel {
            'a' => Some(vec![k, 'ゃ']),
            'i' => Some(vec![k]),
            'u' => Some(vec![k, 'ゅ']),
            'e' => Some(vec![k, 'ぇ']),
            'o' => Some(vec![k, 'ょ']),
            _ => None,
        },
        Row::Blend(k) => match vowel {
            'a' => Some(vec![k, 'ぁ']),
            'i' => Some(vec![k, 'ぃ']),
            'u' => Some(vec![k]),
            'e' => Some(vec![k, 'ぇ']),
            'o' => Some(vec![k, 'ぉ']),
            _ => None,
        },
        Row::Y => match vowel {
            'a' => Some(vec!['や']),
            'i' => Some(vec!['い']),
            'u' => Some(vec!['ゆ']),
            'e' => Some(vec!['い', 'ぇ']),
            'o' => Some(vec!['よ']),
            _ => None,
        },
        Row::W => match vowel {
            'a' => Some(vec!['わ']),
            'i' => Some(vec!['う', 'ぃ']),
            'u' => Some(vec!['う']),
            'e' => Some(vec!['う', 'ぇ']),
            'o' => Some(vec!['を']),
            _ => None,
        },
        Row::SmallY => match vowel {
            'a' => Some(vec!['ゃ']),
            'u' => Some(vec!['ゅ']),
            'o' => Some(vec!['ょ']),
            _ => None,
        },
        Row::SmallTsu => match vowel {
            'u' => Some(vec!['っ']),
            _ => None,
        },
    }
}

/// The kana that `spelling` stands for, if it is an onset and a vowel.
pub open spec fn syllable(spelling: Seq<char>) -> Option<Seq<char>> {
    if spelling.len() == 0 {
        None
    } else {
        match row_of(spelling.drop_last()) {
            Some(row) => kana_in_row(row, spelling.last()),
            None => None,
        }
    }
}

/// Finds the kana that `letters` stand for.
pub fn find_syllable(letters: &Vec<char>) -> (r: Option<Vec<char>>)
    ensures
        r is Some <==> syllable(letters@) is Some,
        r is Some ==> r->0@ == syllable(letters@)->0,
{
    if letters.len() == 0 {
        return None;
    }
    let n = letters.len() - 1;
    assert(letters@.take(n as int) =~= letters@.drop_last());
    match find_row(letters.as_slice(), n) {
        Some(row) => find_kana(row, letters[n]),
        None => None,
    }
}

/// Letters that a vowel can still complete to a syllable.
pub open spec fn is_onset(letters: Seq<char>) -> bool {
    letters.len() > 0 && row_of(letters) is Some
}

pub fn check_onset(letters: &Vec<char>) -> (r: bool)
    ensures
        r == is_onset(letters@),
{
    assert(letters@.take(letters.len() as int) =~= letters@);
    letters.len() > 0 && find_row(letters.as_slice(), letters.len()).is_some()
}

/// The Japanese form of a punctuation key.
pub open spec fn punctuation(c: char) -> char {
    match c {
        '-' => 'ー',
        ',' => '、',
        '.' => '。',
        '[' => '「',
        ']' => '」',
        _ => c,
    }
}

pub fn to_punctuation(c: char) -> (r: char)
    ensures
        r == punctuation(c),
{
    match c {
        '-' => 'ー',
        ',' => '、',
        '.' => '。',
        '[' => '「',
        ']' => '」',
        _ => c,
    }
}

/// What every kana of the table is: hiragana, at least one character and at most two.
pub proof fn law_syllable_is_hiragana(spelling: Seq<char>)
    requires
        syllable(spelling) is Some,
    ensures
        1 <= syllable(spelling)->0.len() <= 2,
        crate::text::pure_hiragana(syllable(spelling)->0),
{
}

} // verus!
