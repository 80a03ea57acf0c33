//! Configuration file parsing.

use crate::keyseq::{parse_key_sequence, sections_of, white_space, Key, KeySequence};
use crate::text::{
    append_decimal, append_repeated, byte_offset, char_width, decimal, find_char, first_where,
    follows, is_pattern, is_white_space, lemma_byte_offset_step, lemma_char_width,
    lemma_decode_between, lemma_first_where, lemma_offset_is_boundary, pad_left, repeated, str_eq,
};
use vstd::prelude::*;
use vstd::string::StringSliceAdditionalSpecFns;
use vstd::utf8::{
    decode_utf8, decode_utf8_encode_utf8, encode_utf8, encode_utf8_decode_utf8,
    encode_utf8_valid_utf8, is_char_boundary, is_char_boundary_iff_not_is_continuation_byte,
    is_char_boundary_start_end_of_seq, valid_utf8, valid_utf8_split,
};

verus! {

/// The information from the configuration file.
#[derive(Debug)]
pub struct Config {
    /// The set of commands specified in the file.
    pub commands: Vec<ConfigLine>,
}

/// A functional line in the configuration file.
#[derive(Debug)]
pub struct ConfigLine {
    /// The key sequence that must be pressed to trigger the action.
    pub keyseq: KeySequence,
    /// The action that will occur when that key sequence is pressed.
    pub action: Action,
}

/// An action implied by a configuration line.
#[derive(Debug)]
pub enum Action {
    /// A `bind` command, indicating that a particular key sequence
    /// should run a shell command.
    Bind {
        /// The shell command to execute.
        command: Vec<String>,
    },
    /// A `map` command, indicating that a key sequence should trigger
    /// another key sequence.
    Remap {
        /// The KeySequence to trigger.
        to: KeySequence,
    },
}

/// What an action is, as mathematical data.
pub enum ActionView {
    /// Run the command with these words.
    Bind(Seq<Seq<char>>),
    /// Behave as if these keys had been typed.
    Remap(Seq<Key>),
}

/// What a configuration line is, as mathematical data.
pub struct BindingView {
    pub keys: Seq<Key>,
    pub action: ActionView,
}

impl View for Action {
    type V = ActionView;

    open spec fn view(&self) -> ActionView {
        match self {
            Action::Bind { command } => ActionView::Bind(
                Seq::new(command@.len(), |i: int| command@[i]@),
            ),
            Action::Remap { to } => ActionView::Remap(to@),
        }
    }
}

impl View for ConfigLine {
    type V = BindingView;

    open spec fn view(&self) -> BindingView {
        BindingView { keys: self.keyseq@, action: self.action@ }
    }
}

impl View for Config {
    type V = Seq<BindingView>;

    open spec fn view(&self) -> Seq<BindingView> {
        bindings_of(self.commands@)
    }
}

/// The configuration lines of a list as mathematical data.
pub open spec fn bindings_of(lines: Seq<ConfigLine>) -> Seq<BindingView> {
    Seq::new(lines.len(), |i: int| lines[i]@)
}

/// A substring of a line of text obtained from an input file.
#[derive(Clone, Copy, PartialEq, Debug)]
pub struct LineText<'a> {
    /// The name of the file from which the text originated.
    file_name: &'a str,
    /// The line number of the text.
    line_num: usize,
    /// The text of the complete line.
    text: &'a str,
    /// The byte at which the substring begins.
    start: usize,
    /// The byte before which the substring ends.
    end: usize,
}

/// A substring of a line as mathematical data.
pub struct LineTextView {
    /// The name of the file.
    pub file_name: Seq<char>,
    /// The line number.
    pub line_num: usize,
    /// The complete line.
    pub text: Seq<char>,
    /// The byte of the line's UTF-8 encoding at which the substring begins.
    pub start: int,
    /// The byte before which it ends.
    pub end: int,
}

impl LineTextView {
    /// The substring lies within the line, and begins and ends between characters.
    pub open spec fn wf(self) -> bool {
        &&& 0 <= self.start <= self.end <= encode_utf8(self.text).len()
        &&& self.end <= usize::MAX
        &&& is_char_boundary(encode_utf8(self.text), self.start)
        &&& is_char_boundary(encode_utf8(self.text), self.end)
    }

    /// The bytes of the substring.
    pub open spec fn bytes(self) -> Seq<u8> {
        encode_utf8(self.text).subrange(self.start, self.end)
    }

    /// The characters of the substring.
    pub open spec fn chars(self) -> Seq<char> {
        decode_utf8(self.bytes())
    }

    /// The length of the substring in bytes.
    pub open spec fn len(self) -> int {
        self.end - self.start
    }

    /// The part of the substring from its byte `from` up to its byte `to`.
    pub open spec fn cut(self, from: int, to: int) -> LineTextView {
        LineTextView { start: self.start + from, end: self.start + to, ..self }
    }

    /// The part of the substring from its character `i` up to its character `j`.
    pub open spec fn cut_chars(self, i: int, j: int) -> LineTextView {
        self.cut(byte_offset(self.chars(), i), byte_offset(self.chars(), j))
    }
}

impl<'a> View for LineText<'a> {
    type V = LineTextView;

    closed spec fn view(&self) -> LineTextView {
        LineTextView {
            file_name: self.file_name@,
            line_num: self.line_num,
            text: self.text@,
            start: self.start as int,
            end: self.end as int,
        }
    }
}

/// The bytes of a well-formed substring are the encoding of its characters,
/// and a place between two bytes of it is between two characters of it
/// exactly when it is between two characters of the line.
pub proof fn lemma_line_text_bytes(v: LineTextView)
    requires
        v.wf(),
    ensures
        valid_utf8(v.bytes()),
        encode_utf8(v.chars()) == v.bytes(),
        v.bytes().len() == v.len(),
        forall|i: int|
            0 <= i <= v.len() ==> (#[trigger] is_char_boundary(v.bytes(), i) <==> is_char_boundary(
                encode_utf8(v.text),
                v.start + i,
            )),
{
    let line = encode_utf8(v.text);
    let sub = v.bytes();
    encode_utf8_valid_utf8(v.text);
    valid_utf8_split(line, v.end);
    let head = line.subrange(0, v.end);
    assert(is_char_boundary(head, v.start)) by {
        if v.start < v.end {
            is_char_boundary_iff_not_is_continuation_byte(line, v.start);
            is_char_boundary_iff_not_is_continuation_byte(head, v.start);
        } else {
            is_char_boundary_start_end_of_seq(head);
        }
    }
    valid_utf8_split(head, v.start);
    assert(head.subrange(v.start, head.len() as int) =~= sub);
    decode_utf8_encode_utf8(sub);
    assert forall|i: int| 0 <= i <= v.len() implies (#[trigger] is_char_boundary(sub, i)
        <==> is_char_boundary(line, v.start + i)) by {
        if i < v.len() {
            is_char_boundary_iff_not_is_continuation_byte(sub, i);
            is_char_boundary_iff_not_is_continuation_byte(line, v.start + i);
        } else {
            is_char_boundary_start_end_of_seq(sub);
        }
    }
}

/// Cutting a well-formed substring between two of its characters gives a
/// well-formed substring with the characters between them.
pub proof fn lemma_cut_chars(v: LineTextView, i: int, j: int)
    requires
        v.wf(),
        0 <= i <= j <= v.chars().len(),
    ensures
        0 <= byte_offset(v.chars(), i) <= byte_offset(v.chars(), j) <= v.len(),
        is_char_boundary(v.bytes(), byte_offset(v.chars(), i)),
        is_char_boundary(v.bytes(), byte_offset(v.chars(), j)),
        v.cut_chars(i, j).wf(),
        v.cut_chars(i, j).chars() == v.chars().subrange(i, j),
        byte_offset(v.chars(), 0) == 0,
        byte_offset(v.chars(), v.chars().len() as int) == v.len(),
{
    let chars = v.chars();
    lemma_line_text_bytes(v);
    lemma_offset_is_boundary(chars, i);
    lemma_offset_is_boundary(chars, j);
    lemma_decode_between(chars, i, j);
    assert(chars.take(0) =~= Seq::<char>::empty());
    assert(chars.take(chars.len() as int) =~= chars);
    let cut = v.cut_chars(i, j);
    assert(cut.bytes() =~= v.bytes().subrange(byte_offset(chars, i), byte_offset(chars, j)));
}

/// The byte at which `substr` begins.
pub open spec fn substr_from(start: Option<usize>) -> int {
    match start {
        Some(from) => from as int,
        None => 0,
    }
}

/// The byte before which `substr` ends.
pub open spec fn substr_to(v: LineTextView, end: Option<usize>) -> int {
    match end {
        Some(to) => to as int,
        None => v.len(),
    }
}

impl<'a> LineText<'a> {
    /// Every substring lies within its line and begins and ends between characters.
    #[verifier::type_invariant]
    closed spec fn inv(self) -> bool {
        self@.wf()
    }

    /// Creates a new LineText given the name of the source file, the
    /// line number, and the text of that line.
    pub fn new(file_name: &'a str, line_num: usize, text: &'a str) -> (r: Self)
        ensures
            r@.wf(),
            r@ == (LineTextView {
                file_name: file_name@,
                line_num,
                text: text@,
                start: 0,
                end: encode_utf8(text@).len() as int,
            }),
            r@.chars() == text@,
    {
        let end = text.as_bytes().len();
        proof {
            encode_utf8_valid_utf8(text@);
            is_char_boundary_start_end_of_seq(encode_utf8(text@));
            assert(encode_utf8(text@).subrange(0, end as int) =~= encode_utf8(text@));
            encode_utf8_decode_utf8(text@);
        }
        Self { file_name, line_num, text, start: 0, end }
    }

    /// Gets the contents of the referenced section of text.
    pub fn as_str(&self) -> (r: &'a str)
        ensures
            self@.wf(),
            r@ == self@.chars(),
            r.spec_bytes() == self@.bytes(),
    {
        proof {
            use_type_invariant(self);
            lemma_line_text_bytes(self@);
            encode_utf8_valid_utf8(self.text@);
            let line = encode_utf8(self.text@);
            valid_utf8_split(line, self.end as int);
            let head = line.subrange(0, self.end as int);
            if self.start < self.end {
                is_char_boundary_iff_not_is_continuation_byte(line, self.start as int);
                is_char_boundary_iff_not_is_continuation_byte(head, self.start as int);
            } else {
                is_char_boundary_start_end_of_seq(head);
            }
        }
        let (head, _) = self.text.split_at(self.end);
        let (_, part) = head.split_at(self.start);
        proof {
            assert(part.spec_bytes() =~= self@.bytes());
            encode_utf8_decode_utf8(part@);
        }
        part
    }

    /// The length of the referenced section of text, in bytes.
    pub fn len(&self) -> (r: usize)
        ensures
            self@.wf(),
            r == self@.len(),
    {
        proof {
            use_type_invariant(self);
        }
        self.end - self.start
    }

    /// Takes a substring of a LineText, between the two byte indices.
    /// If `start` is None, uses the beginning of the string, and if
    /// `end` is None, uses the end of the string. The indices must lie
    /// between characters, the first no later than the second.
    pub fn substr(&self, start: Option<usize>, end: Option<usize>) -> (r: Self)
        requires
            substr_from(start) <= substr_to(self@, end) <= self@.len(),
            is_char_boundary(self@.bytes(), substr_from(start)),
            is_char_boundary(self@.bytes(), substr_to(self@, end)),
        ensures
            self@.wf(),
            r@.wf(),
            r@ == self@.cut(substr_from(start), substr_to(self@, end)),
    {
        proof {
            use_type_invariant(self);
        }
        let from = match start {
            Some(from) => from,
            None => 0,
        };
        let to = match end {
            Some(to) => to,
            None => self.len(),
        };
        proof {
            lemma_line_text_bytes(self@);
        }
        Self { start: self.start + from, end: self.start + to, ..*self }
    }
}

/// An error arising from parsing.
#[derive(Debug)]
pub struct SyntaxError {
    /// The error message to print.
    err_msg: String,
    /// The file from which the error originated.
    file_name: String,
    /// The text of the line on which the error occurred.
    line: String,
    /// The line number (starting from 1) on which the error occurred.
    line_num: usize,
    /// The column number (starting from 0) of the first erroneous
    /// character.
    col_num: usize,
    /// The number of characters past `col_num` to indicate as
    /// erroneous in an error message.
    len: usize,
}

/// A syntax error as mathematical data.
pub struct SyntaxErrorView {
    pub err_msg: Seq<char>,
    pub file_name: Seq<char>,
    pub line: Seq<char>,
    pub line_num: usize,
    pub col_num: usize,
    pub len: usize,
}

impl View for SyntaxError {
    type V = SyntaxErrorView;

    closed spec fn view(&self) -> SyntaxErrorView {
        SyntaxErrorView {
            err_msg: self.err_msg@,
            file_name: self.file_name@,
            line: self.line@,
            line_num: self.line_num,
            col_num: self.col_num,
            len: self.len,
        }
    }
}

impl SyntaxErrorView {
    /// The number of characters to underline: the length of the erroneous
    /// text, but at least one.
    pub open spec fn underline(self) -> nat {
        if self.len == 0 {
            1
        } else {
            self.len as nat
        }
    }

    /// The report of the error: where it is, the line with its number and
    /// with the erroneous text underlined, and the message.
    pub open spec fn report(self) -> Seq<char> {
        "Syntax error: "@ + self.file_name + ":"@ + decimal(self.line_num as nat) + ":"@ + decimal(
            self.col_num as nat,
        ) + "\n"@ + "     |\n"@ + pad_left(decimal(self.line_num as nat), 4) + " | "@ + self.line
            + "\n"@ + "     | "@ + repeated(' ', self.col_num as nat) + repeated(
            '^',
            self.underline(),
        ) + "\n"@ + self.err_msg
    }
}

impl SyntaxError {
    /// The report of the error, as it is shown to the user.
    pub fn to_string(&self) -> (r: String)
        ensures
            r@ == self@.report(),
    {
        let mut number = String::new();
        append_decimal(&mut number, self.line_num);
        let digits = number.as_str().unicode_len();
        assert(number@ =~= decimal(self.line_num as nat));
        proof {
            reveal_strlit(" ");
            reveal_strlit("^");
        }
        let mut out = "Syntax error: ".to_owned();
        out.append(self.file_name.as_str());
        out.append(":");
        append_decimal(&mut out, self.line_num);
        out.append(":");
        append_decimal(&mut out, self.col_num);
        out.append("\n");
        out.append("     |\n");
        if digits < 4 {
            append_repeated(&mut out, " ", 4 - digits);
        }
        out.append(number.as_str());
        proof {
            let head = "Syntax error: "@ + self.file_name@ + ":"@ + decimal(self.line_num as nat)
                + ":"@ + decimal(self.col_num as nat) + "\n"@ + "     |\n"@;
            assert(out@ =~= head + pad_left(decimal(self.line_num as nat), 4));
        }
        out.append(" | ");
        out.append(self.line.as_str());
        out.append("\n");
        out.append("     | ");
        append_repeated(&mut out, " ", self.col_num);
        append_repeated(&mut out, "^", if self.len == 0 { 1 } else { self.len });
        out.append("\n");
        out.append(self.err_msg.as_str());
        out
    }
}

impl LineTextView {
    /// The syntax error that points at this substring, with the given message.
    pub open spec fn error(self, msg: Seq<char>) -> SyntaxErrorView {
        SyntaxErrorView {
            err_msg: msg,
            file_name: self.file_name,
            line: self.text,
            line_num: self.line_num,
            col_num: self.start as usize,
            len: self.len() as usize,
        }
    }

    /// The substring without the white space that it begins with.
    pub open spec fn trimmed(self) -> LineTextView {
        match first_where(not_white_space(), self.chars()) {
            Some(i) => self.cut_chars(i, self.chars().len() as int),
            None => self.cut(self.len(), self.len()),
        }
    }

    /// The empty substring at the end of this one.
    pub open spec fn tail_end(self) -> LineTextView {
        self.cut(self.len(), self.len())
    }

    /// The substring before the first character of which `pred` holds, and
    /// the substring after that character; nothing where `pred` holds of no
    /// character.
    pub open spec fn split_at_first(self, pred: spec_fn(char) -> bool) -> Option<
        (LineTextView, LineTextView),
    > {
        match first_where(pred, self.chars()) {
            Some(i) => Some(
                (self.cut_chars(0, i), self.cut_chars(i + 1, self.chars().len() as int)),
            ),
            None => None,
        }
    }
}

/// The test that says yes to every character but white space.
pub open spec fn not_white_space() -> spec_fn(char) -> bool {
    |c: char| !is_white_space(c)
}

impl<'a> LineText<'a> {
    /// Converts the LineText into a SyntaxError that highlights this
    /// portion of the line, with the given error message.
    pub fn to_error(self, msg: String) -> (r: SyntaxError)
        ensures
            self@.wf(),
            r@ == self@.error(msg@),
    {
        proof {
            use_type_invariant(&self);
        }
        SyntaxError {
            err_msg: msg,
            file_name: self.file_name.to_owned(),
            line: self.text.to_owned(),
            line_num: self.line_num,
            col_num: self.start,
            len: self.len(),
        }
    }

    /// Cuts the text at the first character that `pattern` says yes to: the
    /// text before the character and the text after it.
    fn cut_at_first<P: Fn(char) -> bool>(&self, pattern: &P) -> (r: Option<
        (LineText<'a>, LineText<'a>),
    >)
        requires
            is_pattern(*pattern),
        ensures
            self@.wf(),
            forall|pred: spec_fn(char) -> bool| #[trigger]
                follows(*pattern, pred) ==> match self@.split_at_first(pred) {
                    Some((head, tail)) => r matches Some((a, b)) && a@ == head && b@ == tail,
                    None => r is None,
                },
            r matches Some((a, b)) ==> a@.wf() && b@.wf() && a@.len() + b@.len() < self@.len(),
    {
        proof {
            use_type_invariant(self);
        }
        let ghost chars = self@.chars();
        match find_char(self.as_str(), pattern) {
            Some((at, width)) => {
                proof {
                    let i = choose|i: int|
                        0 <= i < chars.len() && at == byte_offset(chars, i) && width == char_width(
                            #[trigger] chars[i],
                        );
                    lemma_byte_offset_step(chars, i);
                    lemma_char_width(chars[i]);
                    lemma_cut_chars(self@, 0, i);
                    lemma_cut_chars(self@, i + 1, chars.len() as int);
                }
                let head = self.substr(None, Some(at));
                let tail = self.substr(Some(at + width), None);
                proof {
                    assert forall|pred: spec_fn(char) -> bool| #[trigger]
                        follows(*pattern, pred) implies self@.split_at_first(pred) == Some(
                        (head@, tail@),
                    ) by {
                        lemma_first_where(pred, chars);
                        let i = first_where(pred, chars)->0;
                        lemma_byte_offset_step(chars, i);
                        lemma_char_width(chars[i]);
                        lemma_cut_chars(self@, 0, i);
                        lemma_cut_chars(self@, i + 1, chars.len() as int);
                    }
                }
                Some((head, tail))
            },
            None => None,
        }
    }

    /// Splits the LineText at the first occurrence of a character
    /// that satisfies `pattern`. If one is found, returns the text
    /// before that character and the text after it; otherwise,
    /// returns a syntax error with the given error message, which points
    /// at the end of the text.
    pub fn split1<P: Fn(char) -> bool>(&self, pattern: P, err_msg: &str) -> (r: Result<
        (LineText<'a>, LineText<'a>),
        SyntaxError,
    >)
        requires
            is_pattern(pattern),
        ensures
            self@.wf(),
            forall|pred: spec_fn(char) -> bool| #[trigger]
                follows(pattern, pred) ==> match self@.split_at_first(pred) {
                    Some((head, tail)) => r matches Ok((a, b)) && a@ == head && b@ == tail,
                    None => r is Err,
                },
            r matches Ok((a, b)) ==> a@.wf() && b@.wf(),
            r matches Err(e) ==> e@ == self@.tail_end().error(err_msg@),
    {
        proof {
            use_type_invariant(self);
        }
        match self.cut_at_first(&pattern) {
            Some(parts) => Ok(parts),
            None => {
                proof {
                    lemma_cut_chars(self@, self@.chars().len() as int, self@.chars().len() as int);
                }
                Err(self.substr(Some(self.len()), None).to_error(err_msg.to_owned()))
            },
        }
    }

    /// Removes leading whitespace from the LineText.
    pub fn trim_start(&self) -> (r: Self)
        ensures
            self@.wf(),
            r@.wf(),
            r@ == self@.trimmed(),
    {
        proof {
            use_type_invariant(self);
        }
        let ghost chars = self@.chars();
        let pattern = |c: char| -> (b: bool)
            ensures
                b == !is_white_space(c),
            { !c.is_whitespace() };
        proof {
            assert(follows(pattern, not_white_space()));
            lemma_first_where(not_white_space(), chars);
            lemma_cut_chars(self@, chars.len() as int, chars.len() as int);
        }
        match find_char(self.as_str(), &pattern) {
            Some((at, _)) => {
                proof {
                    let i = first_where(not_white_space(), chars)->0;
                    lemma_cut_chars(self@, i, chars.len() as int);
                }
                self.substr(Some(at), None)
            },
            None => self.substr(Some(self.len()), None),
        }
    }
}

/// Iterator over the sections in a line of text separated by some
/// pattern.
pub struct LineSplit<'a, P: Fn(char) -> bool> {
    /// Whether we're done reading subsections.
    done: bool,
    /// The LineText we haven't looked at yet; this shrinks as we read
    /// more subsections.
    line_text: LineText<'a>,
    /// The pattern we're splitting by.
    pattern: P,
    /// Whether to merge repeated instances of the pattern, i.e.,
    /// whether `"foo---bar"` with a pattern of `'-'` would report
    /// `"foo","bar"` rather than `"foo","","","bar"`.
    merge: bool,
}

/// The state of a split as mathematical data.
pub struct LineSplitView {
    /// Whether the last section has been handed out.
    pub done: bool,
    /// The text not yet looked at.
    pub rest: LineTextView,
    /// Whether empty sections are passed over.
    pub merge: bool,
}

impl LineSplitView {
    /// The next section whether empty or not, and the state after it: the
    /// text up to the first separator, or all of it where there is none,
    /// which is then the last section.
    pub open spec fn cut_next(self, pred: spec_fn(char) -> bool) -> (
        Option<LineTextView>,
        LineSplitView,
    ) {
        if self.done {
            (None, self)
        } else {
            match self.rest.split_at_first(pred) {
                Some((head, tail)) => (Some(head), LineSplitView { rest: tail, ..self }),
                None => (
                    Some(self.rest),
                    LineSplitView { done: true, rest: self.rest.tail_end(), ..self },
                ),
            }
        }
    }

    /// What is left to do: nothing once done, else the bytes not yet looked
    /// at and the last section.
    pub open spec fn measure(self) -> int {
        if self.done {
            0
        } else {
            self.rest.len() + 1
        }
    }

    /// The next section and the state after it: as `cut_next`, but passing
    /// over empty sections where the split merges separators.
    pub open spec fn next_section(self, pred: spec_fn(char) -> bool) -> (
        Option<LineTextView>,
        LineSplitView,
    )
        decreases self.measure(),
        when self.rest.wf()
    {
        let (item, after) = self.cut_next(pred);
        match item {
            Some(text) if self.merge && text.len() == 0 => {
                proof {
                    lemma_cut_next(self, pred);
                }
                after.next_section(pred)
            },
            _ => (item, after),
        }
    }

    /// All the sections still to come, in order.
    pub open spec fn sections(self, pred: spec_fn(char) -> bool) -> Seq<LineTextView>
        decreases self.measure(),
        when self.rest.wf()
    {
        let (item, after) = self.next_section(pred);
        match item {
            Some(text) => {
                proof {
                    lemma_next_section(self, pred);
                }
                Seq::empty().push(text) + after.sections(pred)
            },
            None => Seq::empty(),
        }
    }
}

/// A section cut off leaves a well-formed state with less to do, and is
/// itself well-formed.
pub proof fn lemma_cut_next(v: LineSplitView, pred: spec_fn(char) -> bool)
    requires
        v.rest.wf(),
    ensures
        v.cut_next(pred).1.rest.wf(),
        v.cut_next(pred).1.merge == v.merge,
        0 <= v.cut_next(pred).1.measure() <= v.measure(),
        v.cut_next(pred).0 matches Some(text) ==> text.wf() && v.cut_next(pred).1.measure()
            < v.measure(),
        v.cut_next(pred).0 is None <==> v.done,
{
    let chars = v.rest.chars();
    lemma_cut_chars(v.rest, chars.len() as int, chars.len() as int);
    if !v.done {
        lemma_first_where(pred, chars);
        match first_where(pred, chars) {
            Some(i) => {
                lemma_byte_offset_step(chars, i);
                lemma_char_width(chars[i]);
                lemma_cut_chars(v.rest, 0, i);
                lemma_cut_chars(v.rest, i + 1, chars.len() as int);
            },
            None => {},
        }
    }
}

/// The next section, if there is one, is well-formed, is not empty where
/// the split merges separators, and leaves a well-formed state with less to do.
pub proof fn lemma_next_section(v: LineSplitView, pred: spec_fn(char) -> bool)
    requires
        v.rest.wf(),
    ensures
        v.next_section(pred).1.rest.wf(),
        v.next_section(pred).1.merge == v.merge,
        0 <= v.next_section(pred).1.measure() <= v.measure(),
        v.next_section(pred).0 matches Some(text) ==> text.wf() && (v.merge ==> text.len() > 0)
            && v.next_section(pred).1.measure() < v.measure(),
    decreases v.measure(),
{
    lemma_cut_next(v, pred);
    let (item, after) = v.cut_next(pred);
    match item {
        Some(text) if v.merge && text.len() == 0 => {
            lemma_next_section(after, pred);
        },
        _ => {},
    }
}

/// The view of a text that may be there.
pub open spec fn view_of(text: Option<LineText<'_>>) -> Option<LineTextView> {
    match text {
        Some(text) => Some(text@),
        None => None,
    }
}

/// The views of a list of texts.
pub open spec fn views_of(texts: Seq<LineText<'_>>) -> Seq<LineTextView> {
    Seq::new(texts.len(), |i: int| texts[i]@)
}

impl<'a, P: Fn(char) -> bool> LineSplit<'a, P> {
    /// The state of the split as mathematical data.
    pub closed spec fn view(&self) -> LineSplitView {
        LineSplitView { done: self.done, rest: self.line_text@, merge: self.merge }
    }

    /// The pattern that the split goes by.
    pub closed spec fn pattern(&self) -> P {
        self.pattern
    }

    /// The text not yet looked at is well-formed, and the pattern answers
    /// for every character.
    #[verifier::type_invariant]
    closed spec fn inv(self) -> bool {
        self.line_text@.wf() && is_pattern(self.pattern)
    }

    /// Gets the text that has not yet been examined by the
    /// `LineSplit`.
    pub fn rest(self) -> (r: LineText<'a>)
        ensures
            r@ == self@.rest,
            r@.wf(),
    {
        proof {
            use_type_invariant(&self);
        }
        self.line_text
    }

    /// Gets the next split element, ignoring the `merge` option.
    fn next_nomerge(&mut self) -> (r: Option<LineText<'a>>)
        ensures
            final(self)@.rest.wf(),
            final(self).pattern() == old(self).pattern(),
            forall|pred: spec_fn(char) -> bool| #[trigger]
                follows(old(self).pattern(), pred) ==> (view_of(r), final(self)@) == old(
                    self,
                )@.cut_next(pred),
            r is None <==> old(self)@.done,
            r is None ==> final(self)@ == old(self)@,
            r matches Some(text) ==> text@.wf() && final(self)@.measure() < old(self)@.measure(),
            final(self)@.merge == old(self)@.merge,
    {
        proof {
            use_type_invariant(&*self);
        }
        if self.done {
            return None;
        }
        match self.line_text.cut_at_first(&self.pattern) {
            None => {
                // The whole rest of the string is one block, or
                // we've reached the end of the string.
                proof {
                    let n = self.line_text@.chars().len() as int;
                    lemma_cut_chars(self.line_text@, n, n);
                }
                self.done = true;
                let section = self.line_text;
                self.line_text = self.line_text.substr(Some(self.line_text.len()), None);
                Some(section)
            },
            Some((section, tail)) => {
                self.line_text = tail;
                Some(section)
            },
        }
    }

    /// Gets the next split element: the next section of the text, or, where
    /// the split merges separators, the next one that is not empty.
    pub fn next(&mut self) -> (r: Option<LineText<'a>>)
        ensures
            final(self)@.rest.wf(),
            final(self).pattern() == old(self).pattern(),
            forall|pred: spec_fn(char) -> bool| #[trigger]
                follows(old(self).pattern(), pred) ==> (view_of(r), final(self)@) == old(
                    self,
                )@.next_section(pred),
            r matches Some(text) ==> text@.wf() && final(self)@.measure() < old(self)@.measure(),
            final(self)@.measure() <= old(self)@.measure(),
            final(self)@.merge == old(self)@.merge,
            !old(self)@.merge ==> (r is None <==> old(self)@.done),
            old(self)@.merge ==> (r matches Some(text) ==> text@.len() > 0),
    {
        proof {
            use_type_invariant(&*self);
        }
        loop
            invariant
                self@.rest.wf(),
                self.pattern() == old(self).pattern(),
                self@.merge == old(self)@.merge,
                self@.measure() <= old(self)@.measure(),
                !self@.merge ==> self@ == old(self)@,
                forall|pred: spec_fn(char) -> bool| #[trigger]
                    follows(old(self).pattern(), pred) ==> self@.next_section(pred) == old(
                        self,
                    )@.next_section(pred),
            decreases self@.measure(),
        {
            let ghost before = self@;
            let item = self.next_nomerge();
            match item {
                None => {
                    return None;
                },
                Some(text) => {
                    if !(self.merge && text.len() == 0) {
                        return Some(text);
                    }
                },
            }
        }
    }

    /// Gets all the split elements still to come, in order.
    pub fn collect(self) -> (r: Vec<LineText<'a>>)
        ensures
            forall|pred: spec_fn(char) -> bool| #[trigger]
                follows(self.pattern(), pred) ==> views_of(r@) == self@.sections(pred),
            forall|i: int| 0 <= i < r@.len() ==> (#[trigger] r@[i])@.wf(),
            !self@.done && !self@.merge ==> r@.len() >= 1,
    {
        let mut split = self;
        let mut items: Vec<LineText<'a>> = Vec::new();
        proof {
            use_type_invariant(&split);
        }
        loop
            invariant
                split@.rest.wf(),
                split.pattern() == self.pattern(),
                forall|pred: spec_fn(char) -> bool| #[trigger]
                    follows(self.pattern(), pred) ==> views_of(items@) + split@.sections(pred)
                        == self@.sections(pred),
                forall|i: int| 0 <= i < items@.len() ==> (#[trigger] items@[i])@.wf(),
                split@.merge == self@.merge,
                !self@.done && !self@.merge ==> items@.len() >= 1 || !split@.done,
            decreases split@.measure(),
        {
            let ghost before = split@;
            let ghost listed = items@;
            match split.next() {
                None => {
                    proof {
                        assert forall|pred: spec_fn(char) -> bool| #[trigger]
                            follows(self.pattern(), pred) implies views_of(items@)
                            == self@.sections(pred) by {
                            assert(views_of(items@) + Seq::empty() =~= views_of(items@));
                        }
                    }
                    return items;
                },
                Some(text) => {
                    items.push(text);
                    proof {
                        assert forall|pred: spec_fn(char) -> bool| #[trigger]
                            follows(self.pattern(), pred) implies views_of(items@)
                            + split@.sections(pred) == self@.sections(pred) by {
                            assert(views_of(items@) =~= views_of(listed) + Seq::empty().push(
                                text@,
                            ));
                            assert(views_of(items@) + split@.sections(pred) =~= views_of(listed)
                                + (Seq::empty().push(text@) + split@.sections(pred)));
                        }
                    }
                },
            }
        }
    }
}

impl<'a> LineText<'a> {
    /// Splits the LineText at each occurrence of a character that
    /// satisfies `pattern`. If `merge` is true, merges multiple
    /// instances of the pattern into one, thereby never emitting a
    /// blank string.
    pub fn split<P: Fn(char) -> bool>(&self, pattern: P, merge: bool) -> (r: LineSplit<'a, P>)
        requires
            is_pattern(pattern),
        ensures
            self@.wf(),
            r.pattern() == pattern,
            r@ == (LineSplitView { done: false, rest: self@, merge }),
    {
        proof {
            use_type_invariant(self);
        }
        LineSplit { done: false, line_text: *self, pattern, merge }
    }
}

/// The test for the colon that ends the key sequence of a command.
pub open spec fn colon() -> spec_fn(char) -> bool {
    |c: char| c == ':'
}

/// The test for the white space of ASCII: space, tab, line feed, form feed
/// and carriage return.
pub open spec fn ascii_white_space() -> spec_fn(char) -> bool {
    |c: char| c == ' ' || c == '\t' || c == '\n' || c == '\x0C' || c == '\r'
}

/// The characters of each text of a list.
pub open spec fn words_of(texts: Seq<LineTextView>) -> Seq<Seq<char>> {
    Seq::new(texts.len(), |i: int| texts[i].chars())
}

/// What the arguments of a `bind` command parse to: a key sequence, a
/// colon, and the words of a command, at least one.
pub open spec fn parse_bind(args: LineTextView) -> Result<BindingView, SyntaxErrorView> {
    match args.split_at_first(colon()) {
        Some((keys, command)) => match parse_key_sequence(keys) {
            Ok(keys) => {
                let words = sections_of(command, ascii_white_space(), true);
                if words.len() == 0 {
                    Err(command.error("Expected a command"@))
                } else {
                    Ok(BindingView { keys, action: ActionView::Bind(words_of(words)) })
                }
            },
            Err(e) => Err(e),
        },
        None => Err(args.tail_end().error("Expected \":\""@)),
    }
}

/// What the arguments of a `map` command parse to: a key sequence, a
/// colon, and the key sequence to trigger.
pub open spec fn parse_map(args: LineTextView) -> Result<BindingView, SyntaxErrorView> {
    match args.split_at_first(colon()) {
        Some((from, to)) => match parse_key_sequence(from) {
            Ok(keys) => match parse_key_sequence(to) {
                Ok(target) => Ok(BindingView { keys, action: ActionView::Remap(target) }),
                Err(e) => Err(e),
            },
            Err(e) => Err(e),
        },
        None => Err(args.tail_end().error("Expected \":\""@)),
    }
}

/// The message of the error for a line that begins with an unknown word.
pub open spec fn unrecognized_msg(word: Seq<char>) -> Seq<char> {
    "Unrecognized command \""@ + word + "\""@
}

/// What a line of the configuration file parses to: nothing where the line
/// is blank or a comment, which begins with `#`; else the command that its
/// first word names, with the rest of the line as arguments.
pub open spec fn parse_line(line: LineTextView) -> Result<Option<BindingView>, SyntaxErrorView> {
    let trimmed = line.trimmed();
    if trimmed.chars().len() == 0 || trimmed.chars()[0] == '#' {
        Ok(None)
    } else {
        let (word, after) = (LineSplitView { done: false, rest: trimmed, merge: true }).next_section(
            white_space(),
        );
        match word {
            Some(word) => {
                let parsed = if word.chars() == "bind"@ {
                    parse_bind(after.rest)
                } else if word.chars() == "map"@ {
                    parse_map(after.rest)
                } else {
                    Err(word.error(unrecognized_msg(word.chars())))
                };
                match parsed {
                    Ok(binding) => Ok(Some(binding)),
                    Err(e) => Err(e),
                }
            },
            None => Ok(None),
        }
    }
}

/// The line of the file at position `i`, counted from 0.
pub open spec fn line_at(lines: Seq<Seq<char>>, file_name: Seq<char>, i: int) -> LineTextView {
    LineTextView {
        file_name,
        line_num: (i + 1) as usize,
        text: lines[i],
        start: 0,
        end: encode_utf8(lines[i]).len() as int,
    }
}

/// What the first `n` lines of a file parse to: the commands of those
/// lines in order, or the error of the first line that does not parse.
pub open spec fn parse_lines(lines: Seq<Seq<char>>, file_name: Seq<char>, n: int) -> Result<
    Seq<BindingView>,
    SyntaxErrorView,
>
    decreases n,
{
    if n <= 0 {
        Ok(Seq::empty())
    } else {
        match parse_lines(lines, file_name, n - 1) {
            Ok(commands) => match parse_line(line_at(lines, file_name, n - 1)) {
                Ok(Some(command)) => Ok(commands.push(command)),
                Ok(None) => Ok(commands),
                Err(e) => Err(e),
            },
            Err(e) => Err(e),
        }
    }
}

/// Every key sequence of the bindings has a key, and every command a word.
pub open spec fn bindings_wf(bindings: Seq<BindingView>) -> bool {
    forall|i: int|
        0 <= i < bindings.len() ==> (#[trigger] bindings[i]).keys.len() >= 1
            && match bindings[i].action {
            ActionView::Bind(words) => words.len() >= 1,
            ActionView::Remap(to) => to.len() >= 1,
        }
}

/// The characters of each string of a list.
pub open spec fn strings_of(lines: Seq<String>) -> Seq<Seq<char>> {
    Seq::new(lines.len(), |i: int| lines[i]@)
}

/// Whether a parse result is the expected one: the same value, or an error
/// with the same contents.
pub open spec fn is_command(r: Result<ConfigLine, SyntaxError>, expected: Result<
    BindingView,
    SyntaxErrorView,
>) -> bool {
    match expected {
        Ok(binding) => r matches Ok(line) && line@ == binding,
        Err(error) => r matches Err(e) && e@ == error,
    }
}

/// Parses the arguments of a `bind` command.
pub fn parse_cmd_bind<'a>(args: LineText<'a>) -> (r: Result<ConfigLine, SyntaxError>)
    ensures
        is_command(r, parse_bind(args@)),
        r matches Ok(line) ==> bindings_wf(Seq::empty().push(line@)),
{
    let is_colon = |c: char| -> (b: bool)
        ensures
            b == (c == ':'),
        { c == ':' };
    proof {
        assert(follows(is_colon, colon()));
    }
    let (keys, command) = match args.split1(is_colon, "Expected \":\"") {
        Ok(parts) => parts,
        Err(e) => {
            return Err(e);
        },
    };
    let keyseq = match KeySequence::try_from(keys) {
        Ok(keyseq) => keyseq,
        Err(e) => {
            return Err(e);
        },
    };
    let is_space = |c: char| -> (b: bool)
        ensures
            b == (c == ' ' || c == '\t' || c == '\n' || c == '\x0C' || c == '\r'),
        { c == ' ' || c == '\t' || c == '\n' || c == '\x0C' || c == '\r' };
    let split = command.split(is_space, true);
    proof {
        assert(follows(split.pattern(), ascii_white_space()));
    }
    let words = split.collect();
    let ghost all = views_of(words@);
    if words.len() == 0 {
        return Err(command.to_error("Expected a command".to_owned()));
    }
    let mut argv: Vec<String> = Vec::new();
    let mut i: usize = 0;
    while i < words.len()
        invariant
            i <= words@.len(),
            argv@.len() == i,
            all == views_of(words@),
            forall|j: int| 0 <= j < i ==> (#[trigger] argv@[j])@ == all[j].chars(),
        decreases words.len() - i,
    {
        argv.push(words[i].as_str().to_owned());
        i += 1;
    }
    let line = ConfigLine { keyseq, action: Action::Bind { command: argv } };
    proof {
        assert(line@.action == ActionView::Bind(words_of(all))) by {
            assert(Seq::new(argv@.len(), |i: int| argv@[i]@) =~= words_of(all));
        }
    }
    Ok(line)
}

/// Parses the arguments of a `map` command.
pub fn parse_cmd_map<'a>(args: LineText<'a>) -> (r: Result<ConfigLine, SyntaxError>)
    ensures
        is_command(r, parse_map(args@)),
        r matches Ok(line) ==> bindings_wf(Seq::empty().push(line@)),
{
    let is_colon = |c: char| -> (b: bool)
        ensures
            b == (c == ':'),
        { c == ':' };
    proof {
        assert(follows(is_colon, colon()));
    }
    let (from, to) = match args.split1(is_colon, "Expected \":\"") {
        Ok(parts) => parts,
        Err(e) => {
            return Err(e);
        },
    };
    let keyseq = match KeySequence::try_from(from) {
        Ok(keyseq) => keyseq,
        Err(e) => {
            return Err(e);
        },
    };
    let target = match KeySequence::try_from(to) {
        Ok(target) => target,
        Err(e) => {
            return Err(e);
        },
    };
    Ok(ConfigLine { keyseq, action: Action::Remap { to: target } })
}

/// Attempts to parse the line of text as a configuration command.
/// Returns Ok(None) if the line was blank or a comment.
pub fn parse_command<'a>(line: LineText<'a>) -> (r: Result<Option<ConfigLine>, SyntaxError>)
    ensures
        match parse_line(line@) {
            Ok(Some(binding)) => r matches Ok(Some(command)) && command@ == binding,
            Ok(None) => r matches Ok(None),
            Err(error) => r matches Err(e) && e@ == error,
        },
        r matches Ok(Some(command)) ==> bindings_wf(Seq::empty().push(command@)),
{
    let trimmed = line.trim_start();
    let text = trimmed.as_str();
    proof {
        lemma_line_text_bytes(trimmed@);
        if trimmed@.chars().len() == 0 {
            assert(encode_utf8(trimmed@.chars()).len() == 0);
        } else {
            lemma_byte_offset_step(trimmed@.chars(), 0);
            lemma_char_width(trimmed@.chars()[0]);
            lemma_offset_is_boundary(trimmed@.chars(), 1);
        }
    }
    if trimmed.len() == 0 {
        // Blank line.
        return Ok(None);
    }
    if text.get_char(0) == '#' {
        // Comment.
        return Ok(None);
    }
    let mut split = trimmed.split(char::is_whitespace, true);
    proof {
        assert(follows(split.pattern(), white_space()));
    }
    let first_word = match split.next() {
        Some(word) => word,
        None => {
            return Ok(None);
        },
    };
    let rest = split.rest();
    let word = first_word.as_str();
    let parsed = if str_eq(word, "bind") {
        parse_cmd_bind(rest)
    } else if str_eq(word, "map") {
        parse_cmd_map(rest)
    } else {
        let mut msg = "Unrecognized command \"".to_owned();
        msg.append(word);
        msg.append("\"");
        Err(first_word.to_error(msg))
    };
    match parsed {
        Ok(command) => Ok(Some(command)),
        Err(e) => Err(e),
    }
}

/// Parses a configuration file from its lines.
pub fn parse_config(lines: &Vec<String>, file_name: &str) -> (r: Result<Config, SyntaxError>)
    ensures
        match parse_lines(strings_of(lines@), file_name@, lines@.len() as int) {
            Ok(bindings) => r matches Ok(config) && config@ == bindings,
            Err(error) => r matches Err(e) && e@ == error,
        },
        r matches Ok(config) ==> bindings_wf(config@),
{
    let ghost all = strings_of(lines@);
    let mut commands: Vec<ConfigLine> = Vec::new();
    let mut idx: usize = 0;
    proof {
        assert(bindings_of(commands@) =~= Seq::<BindingView>::empty());
    }
    while idx < lines.len()
        invariant
            idx <= lines@.len(),
            all == strings_of(lines@),
            parse_lines(all, file_name@, idx as int) == Ok::<Seq<BindingView>, SyntaxErrorView>(
                bindings_of(commands@),
            ),
            bindings_wf(bindings_of(commands@)),
        decreases lines.len() - idx,
    {
        // Line numbers start at 1, not 0.
        let line = LineText::new(file_name, idx + 1, lines[idx].as_str());
        let ghost before = bindings_of(commands@);
        proof {
            assert(line@ == line_at(all, file_name@, idx as int));
        }
        match parse_command(line) {
            Ok(Some(command)) => {
                commands.push(command);
                proof {
                    assert(bindings_of(commands@) =~= before.push(
                        command@,
                    ));
                }
            },
            Ok(None) => {},
            Err(e) => {
                proof {
                    assert(parse_lines(all, file_name@, idx + 1) == Err::<
                        Seq<BindingView>,
                        SyntaxErrorView,
                    >(e@));
                    lemma_parse_lines_error(all, file_name@, idx + 1, lines@.len() as int);
                }
                return Err(e);
            },
        }
        idx += 1;
    }
    Ok(Config { commands })
}

/// Once some line does not parse, no later line changes the error.
pub proof fn lemma_parse_lines_error(
    lines: Seq<Seq<char>>,
    file_name: Seq<char>,
    n: int,
    m: int,
)
    requires
        0 <= n <= m,
        parse_lines(lines, file_name, n) is Err,
    ensures
        parse_lines(lines, file_name, m) == parse_lines(lines, file_name, n),
    decreases m - n,
{
    if n < m {
        lemma_parse_lines_error(lines, file_name, n, m - 1);
    }
}

} // verus!
