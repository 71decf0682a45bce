//! A character cursor over a statement's text: the scanning substrate for
//! the SQL layer around the engine. It exposes the current character, a
//! one-character lookahead, and whitespace skipping.

use vstd::prelude::*;

verus! {

/// Unicode whitespace: the code points with the White_Space property, the
/// set `char::is_whitespace` recognizes.
pub open spec fn is_ws(c: char) -> bool {
    let u = c as u32;
    ||| (0x09 <= u && u <= 0x0D)
    ||| u == 0x20
    ||| u == 0x85
    ||| u == 0xA0
    ||| u == 0x1680
    ||| (0x2000 <= u && u <= 0x200A)
    ||| u == 0x2028
    ||| u == 0x2029
    ||| u == 0x202F
    ||| u == 0x205F
    ||| u == 0x3000
}

/// True exactly when `c` is Unicode whitespace.
fn ws_char(c: char) -> (b: bool)
    ensures
        b == is_ws(c),
{
    let u = c as u32;
    (0x09 <= u && u <= 0x0D) || u == 0x20 || u == 0x85 || u == 0xA0 || u == 0x1680 || (0x2000
        <= u && u <= 0x200A) || u == 0x2028 || u == 0x2029 || u == 0x202F || u == 0x205F || u
        == 0x3000
}

/// A cursor over the characters of one statement.
pub struct Lexer {
    text: Vec<char>,
    pos: usize,
}

impl Lexer {
    pub closed spec fn text_spec(self) -> Seq<char> {
        self.text@
    }

    pub closed spec fn pos_spec(self) -> int {
        self.pos as int
    }

    pub open spec fn wf(self) -> bool {
        self.pos_spec() <= self.text_spec().len()
    }

    /// The character under the cursor, if any.
    pub open spec fn current_spec(self) -> Option<char> {
        if self.pos_spec() < self.text_spec().len() {
            Some(self.text_spec()[self.pos_spec()])
        } else {
            None
        }
    }

    /// The character after the cursor, if any.
    pub open spec fn peek_spec(self) -> Option<char> {
        if self.pos_spec() + 1 < self.text_spec().len() {
            Some(self.text_spec()[self.pos_spec() + 1])
        } else {
            None
        }
    }

    /// Creates a cursor positioned on the first character of `input`.
    pub fn new(input: &str) -> (l: Self)
        ensures
            l.wf(),
            l.text_spec() == input@,
            l.pos_spec() == 0,
    {
        let n = input.unicode_len();
        let mut text: Vec<char> = Vec::new();
        let mut i: usize = 0;
        while i < n
            invariant
                i <= n,
                n == input@.len(),
                text@ == input@.subrange(0, i as int),
            decreases n - i,
        {
            text.push(input.get_char(i));
            proof {
                assert(input@.subrange(0, i + 1) =~= input@.subrange(0, i as int).push(
                    input@[i as int],
                ));
            }
            i += 1;
        }
        proof {
            assert(input@.subrange(0, input@.len() as int) =~= input@);
        }
        Lexer { text, pos: 0 }
    }

    /// The character under the cursor.
    pub fn current_char(&self) -> (c: Option<char>)
        requires
            self.wf(),
        ensures
            c == self.current_spec(),
    {
        if self.pos < self.text.len() {
            Some(self.text[self.pos])
        } else {
            None
        }
    }

    /// Advances the cursor one character, if any text is left.
    pub fn read_char(&mut self)
        requires
            old(self).wf(),
        ensures
            final(self).wf(),
            final(self).text_spec() == old(self).text_spec(),
            final(self).pos_spec() == if old(self).pos_spec() < old(self).text_spec().len() {
                old(self).pos_spec() + 1
            } else {
                old(self).pos_spec()
            },
    {
        if self.pos < self.text.len() {
            self.pos = self.pos + 1;
        }
    }

    /// The one-character lookahead, without moving the cursor.
    pub fn read_char_peek(&self) -> (c: Option<char>)
        requires
            self.wf(),
        ensures
            c == self.peek_spec(),
    {
        let n = self.text.len();
        if self.pos < n && n - self.pos > 1 {
            Some(self.text[self.pos + 1])
        } else {
            None
        }
    }

    /// Advances the cursor past Unicode whitespace: afterwards the cursor
    /// stands on the first non-whitespace character at or after where it
    /// stood, or at the end of the text.
    pub fn skip_whitespace(&mut self)
        requires
            old(self).wf(),
        ensures
            final(self).wf(),
            final(self).text_spec() == old(self).text_spec(),
            old(self).pos_spec() <= final(self).pos_spec(),
            forall|j: int|
                old(self).pos_spec() <= j < final(self).pos_spec() ==> is_ws(
                    #[trigger] old(self).text_spec()[j],
                ),
            final(self).pos_spec() == final(self).text_spec().len() || !is_ws(
                final(self).text_spec()[final(self).pos_spec()],
            ),
    {
        while self.pos < self.text.len() && ws_char(self.text[self.pos])
            invariant
                self.wf(),
                self.text@ == old(self).text@,
                old(self).pos_spec() <= self.pos_spec(),
                forall|j: int|
                    old(self).pos_spec() <= j < self.pos_spec() ==> is_ws(
                        #[trigger] old(self).text_spec()[j],
                    ),
            decreases self.text@.len() - self.pos,
        {
            self.pos = self.pos + 1;
        }
    }
}

} // verus!
