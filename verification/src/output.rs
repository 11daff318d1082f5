//! Rust code generation: text with indentation, written piece by piece.
use vstd::prelude::*;

verus! {

/// The state of a [`Codegen`]: its text, its indentation depth, and
/// whether the next write starts a line.
pub type CodegenView = (Seq<char>, nat, bool);

/// Whether `c` is white space as Unicode defines it.
pub uninterp spec fn white_space(c: char) -> bool;

/// `char::is_whitespace`, which tells whether `c` has the Unicode
/// `White_Space` property; the contract names that answer without listing
/// the characters.
#[verifier::external_body]
fn is_white_space(c: char) -> (white: bool)
    ensures
        white == white_space(c),
{
    c.is_whitespace()
}

/// The string of the characters `chars`, in order: `String`'s
/// `FromIterator<char>`, which appends each character.
#[verifier::external_body]
pub(crate) fn string_of_chars(chars: &Vec<char>) -> (text: String)
    ensures
        text@ == chars@,
{
    chars.iter().collect()
}

/// Four spaces for each level of `depth`.
pub open spec fn indentation(depth: nat) -> Seq<char>
    decreases depth,
{
    if depth == 0 {
        Seq::empty()
    } else {
        indentation((depth - 1) as nat) + seq![' ', ' ', ' ', ' ']
    }
}

/// `text` without the spaces at its end.
pub open spec fn trim_spaces(text: Seq<char>) -> Seq<char>
    decreases text.len(),
{
    if text.len() > 0 && text.last() == ' ' {
        trim_spaces(text.drop_last())
    } else {
        text
    }
}

/// `text` without the white space at its end.
pub open spec fn trim_white(text: Seq<char>) -> Seq<char>
    decreases text.len(),
{
    if text.len() > 0 && white_space(text.last()) {
        trim_white(text.drop_last())
    } else {
        text
    }
}

/// What writing `content` does: a line that starts gets its indentation
/// first.
pub open spec fn cg_write(v: CodegenView, content: Seq<char>) -> CodegenView {
    (v.0 + (if v.2 { indentation(v.1) } else { Seq::empty() }) + content, v.1, false)
}

/// What ending a line does: the spaces at the end of the text go, and a
/// line feed follows.
pub open spec fn cg_newline(v: CodegenView) -> CodegenView {
    let w = (trim_spaces(v.0), v.1, v.2);
    let x = cg_write(w, seq!['\n']);
    (x.0, x.1, true)
}

/// A whole line.
pub open spec fn cg_line(v: CodegenView, content: Seq<char>) -> CodegenView {
    cg_newline(cg_write(v, content))
}

pub open spec fn cg_indent(v: CodegenView) -> CodegenView {
    (v.0, v.1 + 1, v.2)
}

pub open spec fn cg_dedent(v: CodegenView) -> CodegenView {
    (v.0, (v.1 - 1) as nat, v.2)
}

/// `{` at the end of the line, one level deeper.
pub open spec fn cg_open(v: CodegenView) -> CodegenView {
    cg_newline(cg_write(cg_indent(v), seq!['{']))
}

/// `}` on a line of its own, one level less deep.
pub open spec fn cg_close(v: CodegenView) -> CodegenView {
    cg_newline(cg_write(cg_dedent(v), seq!['}']))
}

/// The attribute line that comes before each function.
pub open spec fn allow_unused() -> Seq<char> {
    "#[allow(unused)]"@
}

/// The opening of a function: its attribute line, then its signature and
/// `{`.
pub open spec fn cg_function(v: CodegenView, signature: Seq<char>) -> CodegenView {
    cg_open(cg_write(cg_write(cg_line(v, allow_unused()), signature), seq![' ']))
}

/// Finished text ends with a single line feed, with no white space before
/// it.
pub proof fn law_finished_text_ends_cleanly(text: Seq<char>)
    ensures
        (trim_white(text) + seq!['\n']).last() == '\n',
        trim_white(text).len() == 0 || !white_space(trim_white(text).last()),
    decreases text.len(),
{
    if text.len() > 0 && white_space(text.last()) {
        law_finished_text_ends_cleanly(text.drop_last());
    }
}

/// A builder of Rust source text.
pub struct Codegen {
    buffer: Vec<char>,
    indent: usize,
    new_line: bool,
}

impl View for Codegen {
    type V = CodegenView;

    closed spec fn view(&self) -> CodegenView {
        (self.buffer@, self.indent as nat, self.new_line)
    }
}

impl Codegen {
    pub fn new() -> (codegen: Codegen)
        ensures
            codegen@ == (Seq::<char>::empty(), 0nat, true),
    {
        Codegen { buffer: Vec::new(), indent: 0, new_line: true }
    }

    /// The text, without white space at its end, and with one line feed.
    pub fn finish(self) -> (text: String)
        ensures
            text@ == trim_white(self@.0) + seq!['\n'],
    {
        let mut buffer = self.buffer;
        while buffer.len() > 0 && is_white_space(buffer[buffer.len() - 1])
            invariant
                trim_white(buffer@) == trim_white(self@.0),
            decreases buffer@.len(),
        {
            let ghost before = buffer@;
            buffer.pop();
            assert(buffer@ == before.drop_last());
        }
        buffer.push('\n');
        string_of_chars(&buffer)
    }

    /// Appends `content`; a line that starts gets its indentation first.
    pub fn write(&mut self, content: &str)
        ensures
            final(self)@ == cg_write(old(self)@, content@),
    {
        if self.new_line {
            let mut level: usize = 0;
            while level < self.indent
                invariant
                    level <= self.indent,
                    self.indent == old(self).indent,
                    self.new_line == old(self).new_line,
                    self.buffer@ == old(self).buffer@ + indentation(level as nat),
                decreases self.indent - level,
            {
                self.buffer.push(' ');
                self.buffer.push(' ');
                self.buffer.push(' ');
                self.buffer.push(' ');
                level += 1;
                assert(self.buffer@ =~= old(self).buffer@ + indentation(level as nat));
            }
            self.new_line = false;
        } else {
            assert(self.buffer@ =~= old(self).buffer@ + Seq::<char>::empty());
        }
        let ghost start = self.buffer@;
        assert(start == old(self).buffer@ + (if old(self).new_line { indentation(old(self).indent as nat) } else { Seq::empty() }));
        let length = content.unicode_len();
        let mut i: usize = 0;
        while i < length
            invariant
                i <= length,
                length == content@.len(),
                self.indent == old(self).indent,
                self.buffer@ == start + content@.take(i as int),
            decreases length - i,
        {
            let c = content.get_char(i);
            self.buffer.push(c);
            assert(self.buffer@ =~= start + content@.take(i + 1));
            i += 1;
        }
        assert(content@.take(i as int) == content@);
        self.new_line = false;
    }

    /// Ends the line: drops the spaces at the end of the text, then writes
    /// a line feed.
    pub fn newline(&mut self)
        ensures
            final(self)@ == cg_newline(old(self)@),
    {
        while self.buffer.len() > 0 && self.buffer[self.buffer.len() - 1] == ' '
            invariant
                trim_spaces(self.buffer@) == trim_spaces(old(self).buffer@),
                self.indent == old(self).indent,
                self.new_line == old(self).new_line,
            decreases self.buffer@.len(),
        {
            let ghost before = self.buffer@;
            self.buffer.pop();
            assert(self.buffer@ == before.drop_last());
        }
        proof {
            assert(trim_spaces(self.buffer@) == self.buffer@);
        }
        self.write("\n");
        proof {
            reveal_strlit("\n");
        }
        self.new_line = true;
    }

    /// A whole line.
    pub fn line(&mut self, content: &str)
        ensures
            final(self)@ == cg_line(old(self)@, content@),
    {
        self.write(content);
        self.newline();
    }

    pub fn indent(&mut self)
        requires
            old(self)@.1 < usize::MAX,
        ensures
            final(self)@ == cg_indent(old(self)@),
    {
        self.indent += 1;
    }

    pub fn dedent(&mut self)
        requires
            old(self)@.1 > 0,
        ensures
            final(self)@ == cg_dedent(old(self)@),
    {
        self.indent -= 1;
    }

    /// The indentation depth.
    pub fn depth(&self) -> (depth: usize)
        ensures
            depth == self@.1,
    {
        self.indent
    }

    fn space(&mut self)
        ensures
            final(self)@ == cg_write(old(self)@, seq![' ']),
    {
        self.write(" ");
        proof {
            reveal_strlit(" ");
        }
    }

    fn open_brace(&mut self)
        requires
            old(self)@.1 < usize::MAX,
        ensures
            final(self)@ == cg_open(old(self)@),
    {
        self.indent();
        self.write("{");
        proof {
            reveal_strlit("{");
        }
        self.newline();
    }

    fn close_brace(&mut self)
        requires
            old(self)@.1 > 0,
        ensures
            final(self)@ == cg_close(old(self)@),
    {
        self.dedent();
        self.write("}");
        proof {
            reveal_strlit("}");
        }
        self.newline();
    }

    /// Opens a function: an attribute line that allows it to be unused,
    /// then its signature and `{`. The [`Statements`] that it returns
    /// write the body and close it.
    pub fn function(&mut self, signature: &str) -> (body: Statements)
        requires
            old(self)@.1 < usize::MAX,
        ensures
            final(self)@ == cg_function(old(self)@, signature@),
            body.end == BlockEnd::Function,
    {
        self.line("#[allow(unused)]");
        self.write(signature);
        self.space();
        self.open_brace();
        Statements { end: BlockEnd::Function }
    }

    /// Opens an enumeration. The [`Enum`] that it returns writes the
    /// variants and closes it.
    pub fn enumeration(&mut self, name: &str, public: bool) -> (body: Enum)
        requires
            old(self)@.1 < usize::MAX,
        ensures
            final(self)@ == cg_open(cg_write(cg_write(cg_write(
                if public { cg_write(old(self)@, "pub "@) } else { old(self)@ }, "enum "@), name@), seq![' '])),
    {
        if public {
            self.write("pub ");
        }
        self.write("enum ");
        self.write(name);
        self.space();
        self.open_brace();
        Enum { open: true }
    }

    /// Opens the implementation of a trait. The [`Trait`] that it returns
    /// writes the functions and closes it.
    pub fn trait_impl(&mut self, name: &str, target: &str) -> (body: Trait)
        requires
            old(self)@.1 < usize::MAX,
        ensures
            final(self)@ == cg_open(cg_write(cg_write(cg_write(cg_write(cg_write(old(self)@, "impl "@), name@), " for "@), target@), seq![' '])),
            !body.first,
    {
        self.write("impl ");
        self.write(name);
        self.write(" for ");
        self.write(target);
        self.space();
        self.open_brace();
        Trait { first: false }
    }
}

/// How a block of statements ends.
#[derive(Debug, Copy, Clone, PartialEq, Eq, Structural)]
pub enum BlockEnd {
    /// `}` and an empty line.
    Function,
    /// `}`.
    Block,
}

/// The statements of a block that a [`Codegen`] is writing.
pub struct Statements {
    pub end: BlockEnd,
}

impl Statements {
    pub fn line(&mut self, codegen: &mut Codegen, content: &str)
        ensures
            final(codegen)@ == cg_line(old(codegen)@, content@),
            *final(self) == *old(self),
    {
        codegen.line(content)
    }

    pub fn newline(&mut self, codegen: &mut Codegen)
        ensures
            final(codegen)@ == cg_newline(old(codegen)@),
            *final(self) == *old(self),
    {
        codegen.newline();
    }

    /// Opens a match. The [`Match`] that it returns writes the cases and
    /// closes it.
    pub fn match_statement(&mut self, codegen: &mut Codegen, control: &str) -> (cases: Match)
        requires
            old(codegen)@.1 < usize::MAX,
        ensures
            final(codegen)@ == cg_open(cg_write(cg_write(cg_write(old(codegen)@, "match "@), control@), seq![' '])),
            *final(self) == *old(self),
    {
        codegen.write("match ");
        codegen.write(control);
        codegen.space();
        codegen.open_brace();
        Match { open: true }
    }

    /// Opens an `if`. The [`Statements`] that it returns write its body and
    /// close it.
    pub fn if_statement(&mut self, codegen: &mut Codegen, control: &str) -> (body: Statements)
        requires
            old(codegen)@.1 < usize::MAX,
        ensures
            final(codegen)@ == cg_open(cg_write(cg_write(cg_write(old(codegen)@, "if "@), control@), seq![' '])),
            body.end == BlockEnd::Block,
            *final(self) == *old(self),
    {
        codegen.write("if ");
        codegen.write(control);
        codegen.space();
        codegen.open_brace();
        Statements { end: BlockEnd::Block }
    }

    /// Closes the block: `}`, and after a function an empty line.
    pub fn finish(self, codegen: &mut Codegen)
        requires
            old(codegen)@.1 > 0,
        ensures
            final(codegen)@ == if self.end == BlockEnd::Function {
                cg_newline(cg_close(old(codegen)@))
            } else {
                cg_close(old(codegen)@)
            },
    {
        codegen.close_brace();
        if self.end == BlockEnd::Function {
            codegen.newline();
        }
    }
}

/// The cases of a match that a [`Codegen`] is writing.
pub struct Match {
    open: bool,
}

impl Match {
    /// A case: `pattern => line,`.
    pub fn case_line(&mut self, codegen: &mut Codegen, pattern: &str, line: &str)
        ensures
            final(codegen)@ == cg_line(cg_write(cg_write(cg_write(old(codegen)@, pattern@), " => "@), line@), seq![',']),
    {
        codegen.write(pattern);
        codegen.write(" => ");
        codegen.write(line);
        codegen.line(",");
        proof {
            reveal_strlit(",");
        }
    }

    /// Closes the match.
    pub fn finish(self, codegen: &mut Codegen)
        requires
            old(codegen)@.1 > 0,
        ensures
            final(codegen)@ == cg_close(old(codegen)@),
    {
        codegen.close_brace();
    }
}

/// The variants of an enumeration that a [`Codegen`] is writing.
pub struct Enum {
    open: bool,
}

impl Enum {
    /// A variant: `name,`.
    pub fn variant(&mut self, codegen: &mut Codegen, name: &str)
        ensures
            final(codegen)@ == cg_line(cg_write(old(codegen)@, name@), seq![',']),
    {
        codegen.write(name);
        codegen.line(",");
        proof {
            reveal_strlit(",");
        }
    }

    /// Closes the enumeration, and leaves an empty line.
    pub fn finish(self, codegen: &mut Codegen)
        requires
            old(codegen)@.1 > 0,
        ensures
            final(codegen)@ == cg_newline(cg_close(old(codegen)@)),
    {
        codegen.close_brace();
        codegen.newline();
    }
}

/// The functions of a trait implementation that a [`Codegen`] is writing.
pub struct Trait {
    pub first: bool,
}

impl Trait {
    /// Opens a function; functions after the first are set apart by an
    /// empty line. The [`Statements`] that it returns write the body and
    /// close it.
    pub fn function(&mut self, codegen: &mut Codegen, signature: &str) -> (body: Statements)
        requires
            old(codegen)@.1 < usize::MAX,
        ensures
            final(codegen)@ == cg_function(if old(self).first { cg_newline(old(codegen)@) } else { old(codegen)@ }, signature@),
            final(self).first,
            body.end == BlockEnd::Block,
    {
        if self.first {
            codegen.newline();
        } else {
            self.first = true;
        }
        let _ = codegen.function(signature);
        Statements { end: BlockEnd::Block }
    }

    /// Closes the implementation, and leaves an empty line.
    pub fn finish(self, codegen: &mut Codegen)
        requires
            old(codegen)@.1 > 0,
        ensures
            final(codegen)@ == cg_newline(cg_close(old(codegen)@)),
    {
        codegen.close_brace();
        codegen.newline();
    }
}

} // verus!
