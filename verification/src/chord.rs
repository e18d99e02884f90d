//! Keyboard chords, and how they are written: the modifiers `Ctrl`, `Alt` and
//! `Shift` and one key, joined by `+`.
use crate::text::{
    a_text_without_separators_is_one_piece, chars_of, first_piece_then_the_rest, pieces, quote,
    quoted, same_text, split_text,
};
use vstd::prelude::*;

verus! {

/// The key of a chord.
#[derive(Debug, Clone, Copy, PartialEq, Eq, Structural)]
pub enum HotkeyKey {
    /// A letter in upper case, or a digit.
    Char(char),
    Space,
    Up,
    Down,
}

/// A key with its modifiers.
#[derive(Debug, Clone, Copy, PartialEq, Eq, Structural)]
pub struct HotkeyChord {
    pub ctrl: bool,
    pub alt: bool,
    pub shift: bool,
    pub key: HotkeyKey,
}

/// The characters that can be keys.
pub open spec fn is_key_char(c: char) -> bool {
    'A' <= c <= 'Z' || '0' <= c <= '9'
}

/// How a key is written.
pub open spec fn key_text(key: HotkeyKey) -> Seq<char> {
    match key {
        HotkeyKey::Char(c) => seq![c],
        HotkeyKey::Space => "Space"@,
        HotkeyKey::Up => "Up"@,
        HotkeyKey::Down => "Down"@,
    }
}

/// The key that a text writes.
pub open spec fn key_of(text: Seq<char>) -> Option<HotkeyKey> {
    if text == "Space"@ {
        Some(HotkeyKey::Space)
    } else if text == "Up"@ {
        Some(HotkeyKey::Up)
    } else if text == "Down"@ {
        Some(HotkeyKey::Down)
    } else if text.len() == 1 && is_key_char(text[0]) {
        Some(HotkeyKey::Char(text[0]))
    } else {
        None
    }
}

/// How a chord is written: its modifiers in a fixed order, then its key.
pub open spec fn chord_text(chord: HotkeyChord) -> Seq<char> {
    (if chord.ctrl {
        "Ctrl+"@
    } else {
        Seq::empty()
    }) + (if chord.alt {
        "Alt+"@
    } else {
        Seq::empty()
    }) + (if chord.shift {
        "Shift+"@
    } else {
        Seq::empty()
    }) + key_text(chord.key)
}

/// Whether the text names a modifier.
pub open spec fn is_modifier(text: Seq<char>) -> bool {
    text == "Ctrl"@ || text == "Alt"@ || text == "Shift"@
}

/// The chord that the pieces of a text write: modifiers in any order, then a
/// key.
pub open spec fn chord_of(parts: Seq<Seq<char>>) -> Option<HotkeyChord> {
    let modifiers = parts.drop_last();
    match key_of(parts.last()) {
        Some(key) => if forall|i: int| 0 <= i < modifiers.len() ==> is_modifier(
            #[trigger] modifiers[i],
        ) {
            Some(
                HotkeyChord {
                    ctrl: modifiers.contains("Ctrl"@),
                    alt: modifiers.contains("Alt"@),
                    shift: modifiers.contains("Shift"@),
                    key,
                },
            )
        } else {
            None
        },
        None => None,
    }
}

/// What is said of a text that writes no chord.
pub open spec fn not_a_chord(text: Seq<char>) -> Seq<char> {
    "invalid hotkey chord "@ + quoted(text)
}

impl HotkeyKey {
    fn parse(text: &str) -> (r: Option<HotkeyKey>)
        ensures
            r == key_of(text@),
    {
        if same_text(text, "Space") {
            return Some(HotkeyKey::Space);
        }
        if same_text(text, "Up") {
            return Some(HotkeyKey::Up);
        }
        if same_text(text, "Down") {
            return Some(HotkeyKey::Down);
        }
        let chars = chars_of(text);
        if chars.len() == 1 {
            let c = chars[0];
            if ('A' <= c && c <= 'Z') || ('0' <= c && c <= '9') {
                return Some(HotkeyKey::Char(c));
            }
        }
        None
    }
}

impl HotkeyChord {
    pub fn parse(text: &str) -> (r: Result<HotkeyChord, String>)
        ensures
            match r {
                Ok(chord) => chord_of(pieces(text@, '+')) == Some(chord),
                Err(message) => chord_of(pieces(text@, '+')) is None && message@ == not_a_chord(text@),
            },
    {
        let parts = split_text(text, '+');
        let ghost modifiers = parts.deep_view().drop_last();
        let last: usize = parts.len() - 1;
        assert(parts.deep_view().last() == parts@[last as int]@);
        let key = match HotkeyKey::parse(parts[last].as_str()) {
            Some(key) => key,
            None => {
                return Err(Self::refusal(text));
            },
        };
        let mut chord = HotkeyChord { ctrl: false, alt: false, shift: false, key };
        let mut i: usize = 0;
        while i < last
            invariant
                i <= last < parts@.len(),
                parts.deep_view() == pieces(text@, '+'),
                modifiers == parts.deep_view().drop_last(),
                modifiers.len() == last,
                chord.key == key,
                key_of(parts.deep_view().last()) == Some(key),
                forall|j: int| 0 <= j < i ==> is_modifier(#[trigger] modifiers[j]),
                chord.ctrl == modifiers.take(i as int).contains("Ctrl"@),
                chord.alt == modifiers.take(i as int).contains("Alt"@),
                chord.shift == modifiers.take(i as int).contains("Shift"@),
            decreases last - i,
        {
            let part = parts[i].as_str();
            let ghost so_far = modifiers.take(i as int);
            proof {
                assert(modifiers[i as int] == part@);
                assert(modifiers.take(i + 1) == so_far.push(part@));
                lemma_contains_after_push(so_far, part@, "Ctrl"@);
                lemma_contains_after_push(so_far, part@, "Alt"@);
                lemma_contains_after_push(so_far, part@, "Shift"@);
                lemma_modifiers_differ();
            }
            if same_text(part, "Ctrl") {
                chord.ctrl = true;
            } else if same_text(part, "Alt") {
                chord.alt = true;
            } else if same_text(part, "Shift") {
                chord.shift = true;
            } else {
                assert(!is_modifier(modifiers[i as int]));
                return Err(Self::refusal(text));
            }
            i = i + 1;
        }
        assert(modifiers.take(i as int) =~= modifiers);
        Ok(chord)
    }

    fn refusal(text: &str) -> (r: String)
        ensures
            r@ == not_a_chord(text@),
    {
        let shown = quote(text);
        String::from_str("invalid hotkey chord ").concat(shown.as_str())
    }

    /// How the chord is written.
    pub fn to_text(self) -> (r: String)
        ensures
            r@ == chord_text(self),
    {
        let mut out = String::new();
        if self.ctrl {
            out.append("Ctrl+");
        }
        assert(out@ =~= (if self.ctrl { "Ctrl+"@ } else { Seq::empty() }));
        if self.alt {
            out.append("Alt+");
        }
        assert(out@ =~= (if self.ctrl { "Ctrl+"@ } else { Seq::empty() }) + (if self.alt {
            "Alt+"@
        } else {
            Seq::empty()
        }));
        if self.shift {
            out.append("Shift+");
        }
        let ghost modifiers = out@;
        assert(modifiers =~= (if self.ctrl { "Ctrl+"@ } else { Seq::empty() }) + (if self.alt {
            "Alt+"@
        } else {
            Seq::empty()
        }) + (if self.shift {
            "Shift+"@
        } else {
            Seq::empty()
        }));
        match self.key {
            HotkeyKey::Char(c) => {
                let mut one: Vec<char> = Vec::new();
                one.push(c);
                let key = crate::text::text_of(one.as_slice());
                assert(key@ =~= seq![c]);
                out.append(key.as_str());
            },
            HotkeyKey::Space => {
                out.append("Space");
            },
            HotkeyKey::Up => {
                out.append("Up");
            },
            HotkeyKey::Down => {
                out.append("Down");
            },
        }
        out
    }
}

proof fn lemma_contains_after_push(s: Seq<Seq<char>>, last: Seq<char>, x: Seq<char>)
    ensures
        s.push(last).contains(x) == (s.contains(x) || last == x),
{
    if s.contains(x) {
        let i = choose|i: int| 0 <= i < s.len() && s[i] == x;
        assert(s.push(last)[i] == x);
    }
    if last == x {
        assert(s.push(last)[s.len() as int] == x);
    }
    if s.push(last).contains(x) && last != x {
        let i = choose|i: int| 0 <= i < s.push(last).len() && s.push(last)[i] == x;
        assert(s[i] == x);
    }
}

proof fn lemma_modifiers_differ()
    ensures
        "Ctrl"@ != "Alt"@,
        "Ctrl"@ != "Shift"@,
        "Alt"@ != "Shift"@,
{
    reveal_strlit("Ctrl");
    reveal_strlit("Alt");
    reveal_strlit("Shift");
    assert("Ctrl"@.len() == 4 && "Alt"@.len() == 3 && "Shift"@.len() == 5);
}

proof fn lemma_contains_literal(head: Seq<char>)
    requires
        head == "Ctrl"@ || head == "Alt"@ || head == "Shift"@ || head == "Space"@ || head == "Up"@
            || head == "Down"@,
    ensures
        !head.contains('+'),
{
    reveal_strlit("Ctrl");
    reveal_strlit("Alt");
    reveal_strlit("Shift");
    reveal_strlit("Space");
    reveal_strlit("Up");
    reveal_strlit("Down");
    assert forall|i: int| 0 <= i < head.len() implies head[i] != '+' by {}
}

proof fn lemma_joined()
    ensures
        "Ctrl+"@ == "Ctrl"@.push('+'),
        "Alt+"@ == "Alt"@.push('+'),
        "Shift+"@ == "Shift"@.push('+'),
{
    reveal_strlit("Ctrl");
    reveal_strlit("Alt");
    reveal_strlit("Shift");
    reveal_strlit("Ctrl+");
    reveal_strlit("Alt+");
    reveal_strlit("Shift+");
    assert("Ctrl+"@ =~= "Ctrl"@.push('+'));
    assert("Alt+"@ =~= "Alt"@.push('+'));
    assert("Shift+"@ =~= "Shift"@.push('+'));
}

/// The pieces of a written chord: its modifiers, then its key.
proof fn lemma_pieces_of_chord(chord: HotkeyChord)
    requires
        chord.key matches HotkeyKey::Char(c) ==> is_key_char(c),
    ensures
        pieces(chord_text(chord), '+') == (if chord.ctrl {
            seq!["Ctrl"@]
        } else {
            Seq::empty()
        }) + (if chord.alt {
            seq!["Alt"@]
        } else {
            Seq::empty()
        }) + (if chord.shift {
            seq!["Shift"@]
        } else {
            Seq::empty()
        }) + seq![key_text(chord.key)],
{
    lemma_joined();
    lemma_contains_literal("Ctrl"@);
    lemma_contains_literal("Alt"@);
    lemma_contains_literal("Shift"@);
    let key = key_text(chord.key);
    match chord.key {
        HotkeyKey::Char(c) => {},
        HotkeyKey::Space => {
            lemma_contains_literal("Space"@);
        },
        HotkeyKey::Up => {
            lemma_contains_literal("Up"@);
        },
        HotkeyKey::Down => {
            lemma_contains_literal("Down"@);
        },
    }
    assert(!key.contains('+'));
    a_text_without_separators_is_one_piece(key, '+');
    let one = if chord.shift {
        "Shift+"@ + key
    } else {
        key
    };
    first_piece_then_the_rest("Shift"@, key, '+');
    let two = if chord.alt {
        "Alt+"@ + one
    } else {
        one
    };
    first_piece_then_the_rest("Alt"@, one, '+');
    let three = if chord.ctrl {
        "Ctrl+"@ + two
    } else {
        two
    };
    first_piece_then_the_rest("Ctrl"@, two, '+');
    assert(chord_text(chord) =~= three);
    assert(pieces(three, '+') =~= (if chord.ctrl {
        seq!["Ctrl"@]
    } else {
        Seq::empty()
    }) + (if chord.alt {
        seq!["Alt"@]
    } else {
        Seq::empty()
    }) + (if chord.shift {
        seq!["Shift"@]
    } else {
        Seq::empty()
    }) + seq![key]);
}

/// Reading a written chord gives the chord back.
pub proof fn written_chords_read_back(chord: HotkeyChord)
    requires
        chord.key matches HotkeyKey::Char(c) ==> is_key_char(c),
    ensures
        chord_of(pieces(chord_text(chord), '+')) == Some(chord),
{
    lemma_pieces_of_chord(chord);
    lemma_modifiers_differ();
    let parts = pieces(chord_text(chord), '+');
    let key = key_text(chord.key);
    assert(parts.last() == key);
    reveal_strlit("Space");
    reveal_strlit("Up");
    reveal_strlit("Down");
    assert("Space"@.len() == 5 && "Up"@.len() == 2 && "Down"@.len() == 4);
    assert(key_of(key) == Some(chord.key));
    let modifiers = parts.drop_last();
    let none = Seq::<Seq<char>>::empty();
    let a = if chord.ctrl {
        none.push("Ctrl"@)
    } else {
        none
    };
    let b = if chord.alt {
        a.push("Alt"@)
    } else {
        a
    };
    let c = if chord.shift {
        b.push("Shift"@)
    } else {
        b
    };
    assert(modifiers =~= c);
    assert forall|i: int| 0 <= i < modifiers.len() implies is_modifier(#[trigger] modifiers[i]) by {}
    assert forall|x: Seq<char>| !(#[trigger] none.contains(x)) by {}
    assert forall|x: Seq<char>| #[trigger] a.contains(x) == (chord.ctrl && x == "Ctrl"@) by {
        lemma_contains_after_push(none, "Ctrl"@, x);
    }
    assert forall|x: Seq<char>| #[trigger]
        b.contains(x) == ((chord.ctrl && x == "Ctrl"@) || (chord.alt && x == "Alt"@)) by {
        lemma_contains_after_push(a, "Alt"@, x);
        assert(a.contains(x) == (chord.ctrl && x == "Ctrl"@));
    }
    assert forall|x: Seq<char>| #[trigger]
        c.contains(x) == ((chord.ctrl && x == "Ctrl"@) || (chord.alt && x == "Alt"@) || (chord.shift
            && x == "Shift"@)) by {
        lemma_contains_after_push(b, "Shift"@, x);
        assert(b.contains(x) == ((chord.ctrl && x == "Ctrl"@) || (chord.alt && x == "Alt"@)));
    }
}

} // verus!
