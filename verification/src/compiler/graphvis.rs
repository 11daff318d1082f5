use crate::compiler::character::{Character, characters_of};
use crate::compiler::instruction::{ExpectedId, Instruction, InstructionId, LabelId, SeriesId};
use crate::compiler::series::ClassView;
use crate::compiler::sorted_set::{SortedSet, ByteKeyed, keys_of};
use crate::compiler::Parser;
use crate::text::{decimal, push_decimal};
use vstd::prelude::*;

verus! {

/// A lower case hexadecimal digit.
pub open spec fn hex_digit(d: nat) -> char {
    if d < 10 { ((d + 48) as u32) as char } else { ((d + 87) as u32) as char }
}

/// The lower case hexadecimal numeral of `b`, without leading zeros.
pub open spec fn hex(b: u8) -> Seq<char> {
    if b < 16 { seq![hex_digit(b as nat)] } else { seq![hex_digit((b / 16) as nat), hex_digit((b % 16) as nat)] }
}

/// How a bound of a class range reads in a label of the graph: a quoted
/// character, with backslashes and double quotes escaped for the label,
/// where the byte is printable or a common control character; else its
/// hexadecimal numeral.
pub open spec fn bound_text(b: u8) -> Seq<char> {
    if b == 0 {
        seq!['\'', '\\', '\\', '0', '\'']
    } else if b == 9 {
        seq!['\'', '\\', '\\', 't', '\'']
    } else if b == 10 {
        seq!['\'', '\\', '\\', 'n', '\'']
    } else if b == 13 {
        seq!['\'', '\\', '\\', 'r', '\'']
    } else if b == 39 {
        seq!['\'', '\\', '\\', '\'', '\'']
    } else if b == 92 {
        seq!['\'', '\\', '\\', '\\', '\\', '\'']
    } else if b == 34 {
        seq!['\'', '\\', '"', '\'']
    } else if 32 <= b <= 126 {
        seq!['\'', (b as u32) as char, '\'']
    } else {
        seq!['0', 'x'] + hex(b)
    }
}

fn hex_char(d: u8) -> (c: char)
    requires
        d < 16,
    ensures
        c == hex_digit(d as nat),
{
    if d < 10 { (d + 48) as char } else { (d + 87) as char }
}

/// Appends `text` to `out`, one character at a time.
fn push_chars(out: &mut String, text: &Vec<char>)
    ensures
        final(out)@ == old(out)@ + text@,
{
    let s = crate::output::string_of_chars(text);
    out.append(s.as_str());
}

/// Appends the text of a bound.
fn push_bound(out: &mut String, b: u8)
    ensures
        final(out)@ == old(out)@ + bound_text(b),
{
    let mut chars: Vec<char> = Vec::new();
    if b == 0 || b == 9 || b == 10 || b == 13 || b == 39 {
        chars.push('\'');
        chars.push('\\');
        chars.push('\\');
        chars.push(if b == 0 { '0' } else if b == 9 { 't' } else if b == 10 { 'n' } else if b == 13 { 'r' } else { '\'' });
        chars.push('\'');
    } else if b == 92 {
        chars.push('\'');
        chars.push('\\');
        chars.push('\\');
        chars.push('\\');
        chars.push('\\');
        chars.push('\'');
    } else if b == 34 {
        chars.push('\'');
        chars.push('\\');
        chars.push('"');
        chars.push('\'');
    } else if 32 <= b && b <= 126 {
        chars.push('\'');
        chars.push(b as char);
        chars.push('\'');
    } else {
        chars.push('0');
        chars.push('x');
        if b < 16 {
            chars.push(hex_char(b));
        } else {
            chars.push(hex_char(b / 16));
            chars.push(hex_char(b % 16));
        }
    }
    assert(chars@ =~= bound_text(b));
    push_chars(out, &chars);
}

/// The text of the ranges of a class, from range `k` on.
pub open spec fn ranges_text_from(ranges: Seq<(u8, u8)>) -> Seq<char>
    decreases ranges.len(),
{
    if ranges.len() == 0 {
        Seq::empty()
    } else {
        let r = ranges.last();
        let one = if r.0 == r.1 { bound_text(r.0) } else { bound_text(r.0) + seq!['-'] + bound_text(r.1) };
        let before = ranges_text_from(ranges.drop_last());
        if ranges.len() == 1 { one } else { before + seq![',', ' '] + one }
    }
}

/// How a class reads in the graph: its ranges, in brackets unless it is a
/// single range that is not negated.
pub open spec fn class_text(class: ClassView) -> Seq<char> {
    let brackets = class.0 || class.1.len() != 1;
    (if brackets { seq!['['] } else { Seq::empty() }) + (if class.0 { seq!['^'] } else { Seq::empty() })
        + ranges_text_from(class.1) + (if brackets { seq![']'] } else { Seq::empty() })
}

/// How a series reads in the graph: its classes, separated by commas.
pub open spec fn series_text(classes: Seq<ClassView>) -> Seq<char>
    decreases classes.len(),
{
    if classes.len() == 0 {
        Seq::empty()
    } else if classes.len() == 1 {
        class_text(classes[0])
    } else {
        series_text(classes.drop_last()) + seq![',', ' '] + class_text(classes.last())
    }
}

/// Appends the text of a class.
fn push_class(out: &mut String, class: &crate::compiler::class::Class)
    ensures
        final(out)@ == old(out)@ + class_text(class@),
{
    let ranges = class.ranges();
    let brackets = class.negated() || ranges.len() != 1;
    let ghost start = out@;
    let mut opening: Vec<char> = Vec::new();
    if brackets {
        opening.push('[');
    }
    if class.negated() {
        opening.push('^');
    }
    push_chars(out, &opening);
    let ghost after_open = out@;
    let mut k: usize = 0;
    while k < ranges.len()
        invariant
            k <= ranges@.len(),
            ranges@ == class@.1,
            out@ == after_open + ranges_text_from(ranges@.take(k as int)),
        decreases ranges@.len() - k,
    {
        let (lower, upper) = ranges[k];
        if k > 0 {
            out.append(", ");
            proof {
                reveal_strlit(", ");
            }
        }
        push_bound(out, lower);
        if lower != upper {
            out.append("-");
            proof {
                reveal_strlit("-");
            }
            push_bound(out, upper);
        }
        proof {
            let t = ranges@.take(k + 1);
            assert(t.drop_last() =~= ranges@.take(k as int));
            assert(t.last() == (lower, upper));
            if k == 0 {
                assert(ranges@.take(0) =~= Seq::<(u8, u8)>::empty());
            }
        }
        k += 1;
    }
    assert(ranges@.take(k as int) =~= ranges@);
    let mut closing: Vec<char> = Vec::new();
    if brackets {
        closing.push(']');
    }
    push_chars(out, &closing);
    proof {
        assert(opening@ =~= (if brackets { seq!['['] } else { Seq::<char>::empty() }) + (if class@.0 { seq!['^'] } else { Seq::<char>::empty() }));
        assert(closing@ =~= (if brackets { seq![']'] } else { Seq::<char>::empty() }));
        assert(out@ =~= start + class_text(class@));
    }
}

/// Appends the text of a series.
fn push_series(out: &mut String, series: &crate::compiler::series::Series)
    ensures
        final(out)@ == old(out)@ + series_text(series@),
{
    let classes = series.classes();
    let ghost start = out@;
    let mut k: usize = 0;
    while k < classes.len()
        invariant
            k <= classes@.len(),
            classes@.len() == series@.len(),
            forall|j: int| 0 <= j < classes@.len() ==> (#[trigger] classes@[j])@ == series@[j],
            out@ == start + series_text(series@.take(k as int)),
        decreases classes@.len() - k,
    {
        if k > 0 {
            out.append(", ");
            proof {
                reveal_strlit(", ");
            }
        }
        push_class(out, &classes[k]);
        proof {
            let t = series@.take(k + 1);
            assert(t.drop_last() =~= series@.take(k as int));
            assert(t.last() == series@[k as int]);
            if k == 0 {
                assert(t[0] == series@[0]);
                assert(series@.take(0) =~= Seq::<ClassView>::empty());
            }
        }
        k += 1;
    }
    assert(series@.take(k as int) =~= series@);
}

/// `parts`, separated by commas.
pub open spec fn joined(parts: Seq<Seq<char>>) -> Seq<char>
    decreases parts.len(),
{
    if parts.len() == 0 {
        Seq::empty()
    } else if parts.len() == 1 {
        parts[0]
    } else {
        joined(parts.drop_last()) + seq![',', ' '] + parts.last()
    }
}

/// How a literal reads in the graph: its bytes, separated by commas.
pub open spec fn literal_text(literal: Seq<u8>) -> Seq<char> {
    joined(literal.map_values(|b: u8| bound_text(b)))
}

/// How an expected set reads in the graph: its labels, then its literals,
/// in brackets.
pub(crate) open spec fn expected_text(e: crate::compiler::expected::Expected) -> Seq<char> {
    let labels = e.labels.values().map_values(|l: String| l@);
    let literals = e.literals.values().map_values(|l: Vec<u8>| literal_text(l@));
    seq!['['] + joined(labels + literals) + seq![']']
}

/// Appends `part` to `out`, after a comma unless it is the first part.
fn push_part(out: &mut String, first: bool, part: &str)
    ensures
        final(out)@ == old(out)@ + (if first { Seq::empty() } else { seq![',', ' '] }) + part@,
{
    if !first {
        out.append(", ");
        proof {
            reveal_strlit(", ");
        }
    } else {
        assert(old(out)@ + Seq::<char>::empty() == old(out)@);
    }
    out.append(part);
}

/// The text of a literal.
fn literal_string(literal: &Vec<u8>) -> (text: String)
    ensures
        text@ == literal_text(literal@),
{
    let mut text = String::new();
    let mut k: usize = 0;
    while k < literal.len()
        invariant
            k <= literal@.len(),
            text@ == literal_text(literal@.take(k as int)),
        decreases literal@.len() - k,
    {
        let mut part = String::new();
        push_bound(&mut part, literal[k]);
        push_part(&mut text, k == 0, part.as_str());
        proof {
            let t = literal@.take(k + 1);
            assert(t.drop_last() =~= literal@.take(k as int));
            assert(t.map_values(|b: u8| bound_text(b)).drop_last() =~= literal@.take(k as int).map_values(|b: u8| bound_text(b)));
            if k == 0 {
                assert(literal@.take(0).map_values(|b: u8| bound_text(b)) =~= Seq::<Seq<char>>::empty());
            }
        }
        k += 1;
    }
    assert(literal@.take(k as int) =~= literal@);
    text
}

/// The text of an expected set.
fn expected_string(e: &crate::compiler::expected::Expected) -> (text: String)
    ensures
        text@ == expected_text(*e),
{
    let labels = e.labels.items();
    let literals = e.literals.items();
    let ghost parts = e.labels.values().map_values(|l: String| l@) + e.literals.values().map_values(|l: Vec<u8>| literal_text(l@));
    let mut text = String::from_str("[");
    proof {
        reveal_strlit("[");
    }
    let ghost start = text@;
    let mut k: usize = 0;
    while k < labels.len()
        invariant
            k <= labels@.len(),
            labels@ == e.labels.values(),
            literals@ == e.literals.values(),
            parts == e.labels.values().map_values(|l: String| l@) + e.literals.values().map_values(|l: Vec<u8>| literal_text(l@)),
            text@ == start + joined(parts.take(k as int)),
        decreases labels@.len() - k,
    {
        push_part(&mut text, k == 0, labels[k].as_str());
        proof {
            assert(parts.take(k + 1).drop_last() =~= parts.take(k as int));
            assert(parts[k as int] == labels@[k as int]@);
        }
        k += 1;
    }
    let mut m: usize = 0;
    while m < literals.len()
        invariant
            m <= literals@.len(),
            labels@ == e.labels.values(),
            literals@ == e.literals.values(),
            parts == e.labels.values().map_values(|l: String| l@) + e.literals.values().map_values(|l: Vec<u8>| literal_text(l@)),
            text@ == start + joined(parts.take(labels@.len() + m)),
        decreases literals@.len() - m,
    {
        let part = literal_string(&literals[m]);
        push_part(&mut text, labels.len() == 0 && m == 0, part.as_str());
        proof {
            let n = labels@.len() + m;
            assert(parts.take(n + 1).drop_last() =~= parts.take(n as int));
            assert(parts[n as int] == literal_text(literals@[m as int]@));
        }
        m += 1;
    }
    assert(parts.take(labels@.len() + m) =~= parts);
    text.append("]");
    proof {
        reveal_strlit("]");
    }
    text
}

/// The lines of `lines`, as character sequences.
pub open spec fn texts(lines: Seq<String>) -> Seq<Seq<char>> {
    lines.map_values(|l: String| l@)
}

/// The shape of an instruction's node.
pub open spec fn shape(instruction: Instruction) -> Seq<char> {
    if instruction is Series { "box"@ } else { "oval"@ }
}

/// The marks of an instruction's character: (AT) if it can match while
/// consuming input, (T) if it can match without, (F) if it can fail.
pub open spec fn character_marks(c: Character) -> Seq<char> {
    (if c.antitransparent { " (AT)"@ } else { Seq::empty() }) + (if c.transparent { " (T)"@ } else { Seq::empty() })
        + (if c.fallible { " (F)"@ } else { Seq::empty() })
}

/// Writes the marks of a character.
fn push_marks(out: &mut String, c: Character)
    ensures
        final(out)@ == old(out)@ + character_marks(c),
{
    let ghost start = out@;
    if c.antitransparent {
        out.append(" (AT)");
    }
    let ghost a = out@;
    assert(a =~= start + (if c.antitransparent { " (AT)"@ } else { Seq::<char>::empty() }));
    if c.transparent {
        out.append(" (T)");
    }
    let ghost b = out@;
    assert(b =~= a + (if c.transparent { " (T)"@ } else { Seq::<char>::empty() }));
    if c.fallible {
        out.append(" (F)");
    }
    assert(out@ =~= b + (if c.fallible { " (F)"@ } else { Seq::<char>::empty() }));
    assert(out@ =~= start + character_marks(c));
}

/// `    i` followed by the number of an instruction.
pub open spec fn node(id: nat) -> Seq<char> {
    "    i"@ + decimal(id)
}

impl Parser {
    /// What an instruction is called in the graph.
    pub(crate) open spec fn instruction_name(&self, instruction: Instruction) -> Seq<char> {
        match instruction {
            Instruction::Sequence(_, _) => "Sequence"@,
            Instruction::Choice(_, _) => "Choice"@,
            Instruction::FirstChoice(_, _) => "First choice"@,
            Instruction::NotAhead(_) => "Not ahead"@,
            Instruction::Error(_, e) => "Error["@ + expected_text(self.expecteds.value(e.0)) + "]"@,
            Instruction::Cache(_, slot) => match slot {
                Some(k) => "Cache["@ + decimal(k as nat) + "]"@,
                None => "Cache[?]"@,
            },
            Instruction::Delegate(_) => "Delegate"@,
            Instruction::Label(_, l) => "Label["@ + self.labels.value(l.0)@ + "]"@,
            Instruction::Series(s) => "Series["@ + series_text(self.series.value(s.0)@) + "]"@,
        }
    }

    /// The lines of instruction `id` in the graph: its node, then its
    /// edges.
    pub(crate) open spec fn instruction_lines(&self, chars: Seq<Character>, id: nat) -> Seq<Seq<char>> {
        let instruction = self.ins(id as usize);
        let header = node(id) + "[shape="@ + shape(instruction) + ", label=\""@ + self.instruction_name(instruction)
            + character_marks(chars[id as int]) + " #"@ + decimal(id) + "\"];"@;
        let edges = match instruction {
            Instruction::Sequence(first, second) | Instruction::Choice(first, second) | Instruction::FirstChoice(first, second) =>
                seq![node(id) + ":w -> i"@ + decimal(first.0 as nat) + ";"@, node(id) + ":e -> i"@ + decimal(second.0 as nat) + ";"@],
            Instruction::NotAhead(target) | Instruction::Error(target, _) | Instruction::Label(target, _)
            | Instruction::Cache(target, _) | Instruction::Delegate(target) => seq![node(id) + " -> i"@ + decimal(target.0 as nat) + ";"@],
            Instruction::Series(_) => Seq::empty(),
        };
        seq![header] + edges
    }

    /// The lines of the instructions below `n`.
    pub(crate) open spec fn instructions_lines(&self, chars: Seq<Character>, n: nat) -> Seq<Seq<char>>
        decreases n,
    {
        if n == 0 {
            Seq::empty()
        } else {
            self.instructions_lines(chars, (n - 1) as nat) + if self.has((n - 1) as usize) {
                self.instruction_lines(chars, (n - 1) as nat)
            } else {
                Seq::empty()
            }
        }
    }

    /// Writes the name of an instruction.
    fn push_instruction_name(&self, out: &mut String, instruction: Instruction)
        requires
            self.wf(),
            match instruction {
                Instruction::Error(_, e) => self.expecteds.has(e.0),
                Instruction::Label(_, l) => self.labels.has(l.0),
                Instruction::Series(s) => self.series.has(s.0),
                _ => true,
            },
        ensures
            final(out)@ == old(out)@ + self.instruction_name(instruction),
    {
        match instruction {
            Instruction::Sequence(_, _) => out.append("Sequence"),
            Instruction::Choice(_, _) => out.append("Choice"),
            Instruction::FirstChoice(_, _) => out.append("First choice"),
            Instruction::NotAhead(_) => out.append("Not ahead"),
            Instruction::Error(_, e) => {
                out.append("Error[");
                out.append(expected_string(self.expecteds.get(e)).as_str());
                out.append("]");
            },
            Instruction::Cache(_, slot) => match slot {
                Some(k) => {
                    out.append("Cache[");
                    push_decimal(out, k);
                    out.append("]");
                },
                None => out.append("Cache[?]"),
            },
            Instruction::Delegate(_) => out.append("Delegate"),
            Instruction::Label(_, l) => {
                out.append("Label[");
                out.append(self.labels.get(l).as_str());
                out.append("]");
            },
            Instruction::Series(s) => {
                out.append("Series[");
                push_series(out, self.series.get(s));
                out.append("]");
            },
        }
    }

    /// The lines of instruction `id`.
    fn instruction_line_strings(&self, lines: &mut Vec<String>, chars: &Vec<Character>, id: usize)
        requires
            self.wf(),
            self.has(id),
            chars@.len() == self.size(),
        ensures
            texts(final(lines)@) == texts(old(lines)@) + self.instruction_lines(chars@, id as nat),
    {
        let instruction = self.instruction(InstructionId(id));
        proof {
            assert(self.has(id));
        }
        let mut header = String::from_str("    i");
        push_decimal(&mut header, id);
        header.append("[shape=");
        header.append(match instruction { Instruction::Series(_) => "box", _ => "oval" });
        header.append(", label=\"");
        self.push_instruction_name(&mut header, instruction);
        let c = chars[id];
        push_marks(&mut header, c);
        header.append(" #");
        push_decimal(&mut header, id);
        header.append("\"];");
        proof {
            let expected_header = node(id as nat) + "[shape="@ + shape(instruction) + ", label=\""@ + self.instruction_name(instruction)
                + character_marks(chars@[id as int]) + " #"@ + decimal(id as nat) + "\"];"@;
            assert(header@ =~= expected_header);
        }
        let ghost before = lines@;
        lines.push(header);
        match instruction {
            Instruction::Sequence(first, second) | Instruction::Choice(first, second) | Instruction::FirstChoice(first, second) => {
                let mut west = String::from_str("    i");
                push_decimal(&mut west, id);
                west.append(":w -> i");
                push_decimal(&mut west, first.0);
                west.append(";");
                lines.push(west);
                let mut east = String::from_str("    i");
                push_decimal(&mut east, id);
                east.append(":e -> i");
                push_decimal(&mut east, second.0);
                east.append(";");
                lines.push(east);
            },
            Instruction::NotAhead(target) | Instruction::Error(target, _) | Instruction::Label(target, _)
            | Instruction::Cache(target, _) | Instruction::Delegate(target) => {
                let mut edge = String::from_str("    i");
                push_decimal(&mut edge, id);
                edge.append(" -> i");
                push_decimal(&mut edge, target.0);
                edge.append(";");
                lines.push(edge);
            },
            Instruction::Series(_) => {},
        }
        proof {
            assert(texts(lines@) =~= texts(before) + self.instruction_lines(chars@, id as nat));
        }
    }
}

impl Parser {
    /// Instructions `a` and `b` have debug symbols of the same names.
    pub(crate) open spec fn same_symbol(&self, a: usize, b: usize) -> bool {
        self.debug_symbols.has(a) && self.debug_symbols.has(b)
            && self.debug_symbols.value(a).names@ == self.debug_symbols.value(b).names@
    }

    /// Instruction `i` is the first with its debug symbol.
    pub(crate) open spec fn leads(&self, i: usize) -> bool {
        &&& self.debug_symbols.has(i)
        &&& forall|j: usize| j < i ==> !#[trigger] self.same_symbol(j, i)
    }

    /// The number of instructions below `n` that lead their groups.
    pub(crate) open spec fn leaders_below(&self, n: nat) -> nat
        decreases n,
    {
        if n == 0 {
            0
        } else {
            self.leaders_below((n - 1) as nat) + if self.leads((n - 1) as usize) { 1nat } else { 0nat }
        }
    }

    /// How the names of the debug symbol of `i` read in the graph.
    pub(crate) open spec fn names_text(&self, i: usize) -> Seq<char> {
        let names = self.debug_symbols.value(i).names;
        if names@.len() == 0 {
            "<anonymous>"@
        } else {
            joined(names.values().map_values(|n: String| n@))
        }
    }

    /// The lines of the members of the group of `leader` among the
    /// instructions below `n`.
    pub(crate) open spec fn member_lines(&self, leader: usize, n: nat) -> Seq<Seq<char>>
        decreases n,
    {
        if n == 0 {
            Seq::empty()
        } else {
            self.member_lines(leader, (n - 1) as nat) + if self.same_symbol(leader, (n - 1) as usize) {
                seq!["        i"@ + decimal((n - 1) as nat) + ";"@]
            } else {
                Seq::empty()
            }
        }
    }

    /// The lines of the cluster of the group of `leader`, the `k`th group.
    pub(crate) open spec fn cluster_lines(&self, leader: usize, k: nat) -> Seq<Seq<char>> {
        seq!["    subgraph cluster_"@ + decimal(k) + " {"@, "        label=\""@ + self.names_text(leader) + "\";"@]
            + self.member_lines(leader, self.debug_symbols@.len()) + seq!["    }"@]
    }

    /// The lines of the clusters of the groups whose leaders are below `n`.
    pub(crate) open spec fn clusters_lines(&self, n: nat) -> Seq<Seq<char>>
        decreases n,
    {
        if n == 0 {
            Seq::empty()
        } else {
            self.clusters_lines((n - 1) as nat) + if self.leads((n - 1) as usize) {
                self.cluster_lines((n - 1) as usize, self.leaders_below((n - 1) as nat))
            } else {
                Seq::empty()
            }
        }
    }

    /// The lines of the graph of the parser, in the language of Graphviz.
    pub(crate) open spec fn graph_lines(&self) -> Seq<Seq<char>> {
        seq!["digraph {"@] + self.instructions_lines(characters_of(self), self.size())
            + seq![node(self.start.0 as nat) + "[peripheries=2];"@] + self.clusters_lines(self.debug_symbols@.len()) + seq!["}"@]
    }

    /// The graph of the parser: the lines of [`Parser::graph_lines`], each
    /// but the last ended by a line feed.
    pub closed spec fn graph_text(&self) -> Seq<char> {
        lines_joined(self.graph_lines())
    }

    /// Whether instruction `i` leads its group.
    fn is_leader(&self, i: usize) -> (leads: bool)
        requires
            i < self.debug_symbols@.len(),
        ensures
            leads == self.leads(i),
    {
        if !self.debug_symbols.contains(InstructionId(i)) {
            return false;
        }
        let names = &self.debug_symbols.get(InstructionId(i)).names;
        let mut j: usize = 0;
        while j < i
            invariant
                j <= i,
                self.debug_symbols.has(i),
                *names == self.debug_symbols.value(i).names,
                forall|j2: usize| j2 < j ==> !#[trigger] self.same_symbol(j2, i),
            decreases i - j,
        {
            if self.debug_symbols.contains(InstructionId(j)) && self.debug_symbols.get(InstructionId(j)).names.equals(names) {
                assert(self.same_symbol(j, i));
                return false;
            }
            j += 1;
        }
        true
    }

    /// The lines of the cluster of the group of `leader`.
    fn cluster_strings(&self, lines: &mut Vec<String>, leader: usize, k: usize)
        requires
            self.debug_symbols.has(leader),
        ensures
            texts(final(lines)@) == texts(old(lines)@) + self.cluster_lines(leader, k as nat),
    {
        let ghost before = lines@;
        let mut head = String::from_str("    subgraph cluster_");
        push_decimal(&mut head, k);
        head.append(" {");
        assert(head@ =~= "    subgraph cluster_"@ + decimal(k as nat) + " {"@);
        lines.push(head);
        let symbol = self.debug_symbols.get(InstructionId(leader));
        let mut label = String::from_str("        label=\"");
        if symbol.names.is_empty() {
            label.append("<anonymous>");
        } else {
            let items = symbol.names.items();
            let ghost parts = symbol.names.values().map_values(|n: String| n@);
            let ghost start = label@;
            let mut m: usize = 0;
            while m < items.len()
                invariant
                    m <= items@.len(),
                    items@ == symbol.names.values(),
                    parts == symbol.names.values().map_values(|n: String| n@),
                    label@ == start + joined(parts.take(m as int)),
                decreases items@.len() - m,
            {
                push_part(&mut label, m == 0, items[m].as_str());
                proof {
                    assert(parts.take(m + 1).drop_last() =~= parts.take(m as int));
                    assert(parts[m as int] == items@[m as int]@);
                }
                m += 1;
            }
            assert(parts.take(m as int) =~= parts);
        }
        label.append("\";");
        assert(label@ =~= "        label=\""@ + self.names_text(leader) + "\";"@);
        lines.push(label);
        let ghost opened = lines@;
        assert(texts(opened) =~= texts(before) + seq!["    subgraph cluster_"@ + decimal(k as nat) + " {"@, "        label=\""@ + self.names_text(leader) + "\";"@]);
        let n = self.debug_symbols.next_index();
        let mut j: usize = 0;
        while j < n
            invariant
                j <= n,
                n == self.debug_symbols@.len(),
                self.debug_symbols.has(leader),
                texts(lines@) == texts(opened) + self.member_lines(leader, j as nat),
            decreases n - j,
        {
            let ghost prior = lines@;
            if self.debug_symbols.contains(InstructionId(j))
                && self.debug_symbols.get(InstructionId(j)).names.equals(&self.debug_symbols.get(InstructionId(leader)).names) {
                let mut member = String::from_str("        i");
                push_decimal(&mut member, j);
                member.append(";");
                lines.push(member);
                proof {
                    assert(self.same_symbol(leader, j));
                    assert(texts(lines@) =~= texts(prior) + seq![member@]);
                }
            } else {
                proof {
                    assert(!self.same_symbol(leader, j));
                }
            }
            proof {
                assert(texts(lines@) =~= texts(opened) + self.member_lines(leader, (j + 1) as nat));
            }
            j += 1;
        }
        let ghost members = lines@;
        lines.push(String::from_str("    }"));
        proof {
            assert(texts(lines@) =~= texts(members) + seq!["    }"@]);
            assert(texts(lines@) =~= texts(before) + self.cluster_lines(leader, k as nat));
        }
    }

    /// The lines of the graph of the parser, in the language of Graphviz.
    pub(crate) fn visualize_lines(&self) -> (lines: Vec<String>)
        requires
            self.wf(),
        ensures
            texts(lines@) == self.graph_lines(),
    {
        let chars = self.characterize();
        let mut lines: Vec<String> = Vec::new();
        lines.push(String::from_str("digraph {"));
        let ghost first = texts(lines@);
        assert(first =~= seq!["digraph {"@]);
        let n = self.instructions.next_index();
        let mut i: usize = 0;
        while i < n
            invariant
                n == self.size(),
                i <= n,
                self.wf(),
                chars@ == characters_of(self),
                chars@.len() == self.size(),
                texts(lines@) == first + self.instructions_lines(chars@, i as nat),
            decreases n - i,
        {
            let ghost prior = lines@;
            if self.instructions.contains(InstructionId(i)) {
                self.instruction_line_strings(&mut lines, &chars, i);
            }
            proof {
                assert(texts(lines@) =~= first + self.instructions_lines(chars@, (i + 1) as nat));
            }
            i += 1;
        }
        let mut start = String::from_str("    i");
        push_decimal(&mut start, self.start.0);
        start.append("[peripheries=2];");
        assert(start@ =~= node(self.start.0 as nat) + "[peripheries=2];"@);
        let ghost before_start = lines@;
        lines.push(start);
        let ghost middle = texts(lines@);
        assert(middle =~= texts(before_start) + seq![node(self.start.0 as nat) + "[peripheries=2];"@]);
        let m = self.debug_symbols.next_index();
        let mut k: usize = 0;
        let mut i: usize = 0;
        while i < m
            invariant
                m == self.debug_symbols@.len(),
                i <= m,
                k == self.leaders_below(i as nat),
                k <= i,
                texts(lines@) == middle + self.clusters_lines(i as nat),
            decreases m - i,
        {
            let ghost prior = lines@;
            if self.is_leader(i) {
                self.cluster_strings(&mut lines, i, k);
                k += 1;
            }
            proof {
                assert(texts(lines@) =~= middle + self.clusters_lines((i + 1) as nat));
            }
            i += 1;
        }
        let ghost clustered = lines@;
        lines.push(String::from_str("}"));
        proof {
            assert(texts(lines@) =~= texts(clustered) + seq!["}"@]);
            assert(texts(lines@) =~= self.graph_lines());
        }
        lines
    }

    /// The graph of the parser, in the language of Graphviz: its lines,
    /// each but the last ended by a line feed.
    pub fn visualize(&self) -> (graph: String)
        requires
            self.wf(),
        ensures
            graph@ == self.graph_text(),
    {
        let lines = self.visualize_lines();
        let mut graph = String::new();
        let mut k: usize = 0;
        while k < lines.len()
            invariant
                k <= lines@.len(),
                texts(lines@) == self.graph_lines(),
                graph@ == lines_joined(texts(lines@).take(k as int)),
            decreases lines@.len() - k,
        {
            if k > 0 {
                graph.append("\n");
                proof {
                    reveal_strlit("\n");
                }
            }
            graph.append(lines[k].as_str());
            proof {
                assert(texts(lines@).take(k + 1).drop_last() =~= texts(lines@).take(k as int));
                if k == 0 {
                    assert(texts(lines@).take(0) =~= Seq::<Seq<char>>::empty());
                }
            }
            k += 1;
        }
        assert(texts(lines@).take(k as int) =~= texts(lines@));
        graph
    }
}

/// `lines`, separated by line feeds.
pub open spec fn lines_joined(lines: Seq<Seq<char>>) -> Seq<char>
    decreases lines.len(),
{
    if lines.len() == 0 {
        Seq::empty()
    } else if lines.len() == 1 {
        lines[0]
    } else {
        lines_joined(lines.drop_last()) + seq!['\n'] + lines.last()
    }
}

/// In the graph, each instruction's node is a box for a series and an
/// oval otherwise, labelled with its name, its marks and its number; a
/// two-part instruction (a sequence or a choice) has an
/// edge from the west side of its node to its first part and one from the
/// east side to its second; an instruction with one target has a single
/// edge to it; a series has none.
pub(crate) proof fn lemma_instruction_edges(p: &Parser, chars: Seq<Character>, id: nat)
    ensures
        p.instruction_lines(chars, id)[0] == "    i"@ + decimal(id) + "[shape="@
            + (if p.ins(id as usize) is Series { "box"@ } else { "oval"@ }) + ", label=\""@
            + p.instruction_name(p.ins(id as usize)) + character_marks(chars[id as int]) + " #"@ + decimal(id) + "\"];"@,
        match p.ins(id as usize) {
            Instruction::Sequence(first, second) | Instruction::Choice(first, second) | Instruction::FirstChoice(first, second) => {
                &&& p.instruction_lines(chars, id).len() == 3
                &&& p.instruction_lines(chars, id)[1] == "    i"@ + decimal(id) + ":w -> i"@ + decimal(first.0 as nat) + ";"@
                &&& p.instruction_lines(chars, id)[2] == "    i"@ + decimal(id) + ":e -> i"@ + decimal(second.0 as nat) + ";"@
            },
            Instruction::NotAhead(target) | Instruction::Error(target, _) | Instruction::Label(target, _)
            | Instruction::Cache(target, _) | Instruction::Delegate(target) => {
                &&& p.instruction_lines(chars, id).len() == 2
                &&& p.instruction_lines(chars, id)[1] == "    i"@ + decimal(id) + " -> i"@ + decimal(target.0 as nat) + ";"@
            },
            Instruction::Series(_) => p.instruction_lines(chars, id).len() == 1,
        },
{
}

} // verus!
