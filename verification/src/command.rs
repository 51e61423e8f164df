//! The commands typed at the editor's prompt, read from a line of text.
use vstd::prelude::*;

use crate::editor::{
    node_evaluates, node_value, toggled_graph, Editor, EditorView, InputView, NodeView,
};
use crate::template::{template_named, template_node};
use crate::value::{all_digits, digits_value, parsed_value, print_text};

verus! {

broadcast use vstd::string::group_string_axioms;

/// Whether `c` has the Unicode `White_Space` property, which `str::trim` removes.
pub open spec fn is_white(c: char) -> bool {
    let u = c as u32;
    ||| 0x9 <= u <= 0xd
    ||| u == 0x20
    ||| u == 0x85
    ||| u == 0xa0
    ||| u == 0x1680
    ||| 0x2000 <= u <= 0x200a
    ||| u == 0x2028
    ||| u == 0x2029
    ||| u == 0x202f
    ||| u == 0x205f
    ||| u == 0x3000
}

/// `s` without its leading white space.
pub open spec fn trim_front(s: Seq<char>) -> Seq<char>
    decreases s.len(),
{
    if s.len() > 0 && is_white(s[0]) {
        trim_front(s.skip(1))
    } else {
        s
    }
}

/// `s` without its trailing white space.
pub open spec fn trim_back(s: Seq<char>) -> Seq<char>
    decreases s.len(),
{
    if s.len() > 0 && is_white(s.last()) {
        trim_back(s.drop_last())
    } else {
        s
    }
}

/// `s` without leading and trailing white space.
pub open spec fn trimmed(s: Seq<char>) -> Seq<char> {
    trim_back(trim_front(s))
}

/// `s` begins with `p`.
pub open spec fn has_prefix(s: Seq<char>, p: Seq<char>) -> bool {
    p.len() <= s.len() && s.take(p.len() as int) == p
}

/// The pieces of `s` between occurrences of `sep`, as `str::split` gives them.
pub open spec fn split_on(s: Seq<char>, sep: char) -> Seq<Seq<char>>
    decreases s.len(),
{
    if s.len() == 0 {
        seq![Seq::empty()]
    } else if s.last() == sep {
        split_on(s.drop_last(), sep).push(Seq::empty())
    } else {
        let r = split_on(s.drop_last(), sep);
        r.update(r.len() - 1, r.last().push(s.last()))
    }
}

/// What `str::parse::<usize>` gives: the number written in decimal, with an optional leading
/// `+`, when it fits in a `usize`.
pub open spec fn usize_from_text(s: Seq<char>) -> Option<usize> {
    let body = if s.len() > 0 && s[0] == '+' {
        s.skip(1)
    } else {
        s
    };
    if all_digits(body) && digits_value(body) <= usize::MAX {
        Some(digits_value(body) as usize)
    } else {
        None
    }
}

/// The number a text writes, or 0 when it writes none.
pub open spec fn number_or_zero(s: Seq<char>) -> usize {
    match usize_from_text(s) {
        Some(n) => n,
        None => 0,
    }
}

/// A command typed at the prompt.
#[derive(Debug)]
#[allow(inconsistent_fields)]
pub enum Command {
    /// Evaluate a node and show its value.
    CalcOut { node_id: usize },
    /// Move a node.
    Pos { node_id: usize, x: usize, y: usize },
    /// Connect, disconnect or reconnect an input socket.
    Con { from_node_id: usize, to_node_id: usize, input_index: usize },
    /// Set the value of an input socket from a text.
    SetVal { node_id: usize, input_index: usize, text: String },
    /// Add a node of the kind offered under a title.
    AddNode { title: String },
    /// Remove a node, when the id reads as a number.
    DelNode { node_id: Option<usize> },
    /// Save to a file.
    Save { path: String },
    /// Load from a file.
    Load { path: String },
    AutoSaveOn,
    AutoSaveOff,
    Quit,
    /// A command that takes three arguments was given another number of them.
    WrongArgCount,
    Unknown,
}

/// What a command holds.
pub enum CommandView {
    CalcOut(usize),
    Pos(usize, usize, usize),
    Con(usize, usize, usize),
    SetVal(usize, usize, Seq<char>),
    AddNode(Seq<char>),
    DelNode(Option<usize>),
    Save(Seq<char>),
    Load(Seq<char>),
    AutoSaveOn,
    AutoSaveOff,
    Quit,
    WrongArgCount,
    Unknown,
}

impl View for Command {
    type V = CommandView;

    open spec fn view(&self) -> CommandView {
        match self {
            Command::CalcOut { node_id } => CommandView::CalcOut(*node_id),
            Command::Pos { node_id, x, y } => CommandView::Pos(*node_id, *x, *y),
            Command::Con { from_node_id, to_node_id, input_index } => CommandView::Con(
                *from_node_id,
                *to_node_id,
                *input_index,
            ),
            Command::SetVal { node_id, input_index, text } => CommandView::SetVal(
                *node_id,
                *input_index,
                text@,
            ),
            Command::AddNode { title } => CommandView::AddNode(title@),
            Command::DelNode { node_id } => CommandView::DelNode(*node_id),
            Command::Save { path } => CommandView::Save(path@),
            Command::Load { path } => CommandView::Load(path@),
            Command::AutoSaveOn => CommandView::AutoSaveOn,
            Command::AutoSaveOff => CommandView::AutoSaveOff,
            Command::Quit => CommandView::Quit,
            Command::WrongArgCount => CommandView::WrongArgCount,
            Command::Unknown => CommandView::Unknown,
        }
    }
}

/// The command a trimmed line gives: the first prefix that matches decides; commands that
/// take three arguments split the rest at single spaces and need exactly three pieces, except
/// that `set_val` with only a node id and a socket index sets the socket to the value read
/// from the empty text, the default value of its data type (0, or the empty text);
/// numbers that do not read as numbers are 0, except for `del_node`, which then does nothing;
/// file names get the extension `.ane`.
pub open spec fn command_of(t: Seq<char>) -> CommandView {
    if has_prefix(t, "calc_out "@) {
        CommandView::CalcOut(number_or_zero(t.skip(9)))
    } else if has_prefix(t, "pos "@) {
        let a = split_on(t.skip(4), ' ');
        if a.len() != 3 {
            CommandView::WrongArgCount
        } else {
            CommandView::Pos(number_or_zero(a[0]), number_or_zero(a[1]), number_or_zero(a[2]))
        }
    } else if has_prefix(t, "con "@) {
        let a = split_on(t.skip(4), ' ');
        if a.len() != 3 {
            CommandView::WrongArgCount
        } else {
            CommandView::Con(number_or_zero(a[0]), number_or_zero(a[1]), number_or_zero(a[2]))
        }
    } else if has_prefix(t, "set_val "@) {
        let a = split_on(t.skip(8), ' ');
        if a.len() == 2 {
            CommandView::SetVal(number_or_zero(a[0]), number_or_zero(a[1]), Seq::empty())
        } else if a.len() != 3 {
            CommandView::WrongArgCount
        } else {
            CommandView::SetVal(number_or_zero(a[0]), number_or_zero(a[1]), a[2])
        }
    } else if has_prefix(t, "add_node "@) {
        CommandView::AddNode(t.skip(9))
    } else if has_prefix(t, "del_node "@) {
        CommandView::DelNode(usize_from_text(t.skip(9)))
    } else if has_prefix(t, "save "@) {
        CommandView::Save(t.skip(5) + ".ane"@)
    } else if has_prefix(t, "load "@) {
        CommandView::Load(t.skip(5) + ".ane"@)
    } else if t == "autosave on"@ {
        CommandView::AutoSaveOn
    } else if t == "autosave off"@ {
        CommandView::AutoSaveOff
    } else if t == "q"@ {
        CommandView::Quit
    } else {
        CommandView::Unknown
    }
}

/// Calls `str::parse::<usize>`; the result is the number the text writes in decimal, with an
/// optional leading `+`, when it is in range, and `None` otherwise.
#[verifier::external_body]
fn parse_usize(text: &str) -> (parsed: Option<usize>)
    ensures
        parsed == usize_from_text(text@),
{
    text.parse::<usize>().ok()
}

fn parse_number_or_zero(text: &str) -> (n: usize)
    ensures
        n == number_or_zero(text@),
{
    match parse_usize(text) {
        Some(n) => n,
        None => 0,
    }
}

/// Whether `c` has the Unicode `White_Space` property.
fn white(c: char) -> (w: bool)
    ensures
        w == is_white(c),
{
    let u = c as u32;
    (0x9 <= u && u <= 0xd) || u == 0x20 || u == 0x85 || u == 0xa0 || u == 0x1680 || (0x2000 <= u && u
        <= 0x200a) || u == 0x2028 || u == 0x2029 || u == 0x202f || u == 0x205f || u == 0x3000
}

/// `text` without leading and trailing white space, as `str::trim` gives it.
pub fn trim(text: &str) -> (t: &str)
    ensures
        t@ == trimmed(text@),
{
    let ghost s = text@;
    let n = text.unicode_len();
    let mut i: usize = 0;
    assert(s.skip(0) =~= s);
    while i < n && white(text.get_char(i))
        invariant
            i <= n,
            n == s.len(),
            s == text@,
            trim_front(s) == trim_front(s.skip(i as int)),
        decreases n - i,
    {
        assert(s.skip(i as int).skip(1) =~= s.skip(i + 1));
        i += 1;
    }
    assert(trim_front(s.skip(i as int)) == s.skip(i as int));
    let mut j: usize = n;
    assert(s.skip(i as int) =~= s.subrange(i as int, n as int));
    while j > i && white(text.get_char(j - 1))
        invariant
            i <= j <= n,
            n == s.len(),
            s == text@,
            trimmed(s) == trim_back(s.subrange(i as int, j as int)),
        decreases j,
    {
        assert(s.subrange(i as int, j as int).drop_last() =~= s.subrange(i as int, j - 1));
        j -= 1;
    }
    text.substring_char(i, j)
}

/// Whether `text` begins with `prefix`.
fn starts_with(text: &str, prefix: &str) -> (b: bool)
    ensures
        b == has_prefix(text@, prefix@),
{
    let n = text.unicode_len();
    let m = prefix.unicode_len();
    if m > n {
        return false;
    }
    let mut i: usize = 0;
    while i < m
        invariant
            i <= m <= n,
            n == text@.len(),
            m == prefix@.len(),
            forall|k: int| 0 <= k < i ==> text@[k] == prefix@[k],
        decreases m - i,
    {
        if text.get_char(i) != prefix.get_char(i) {
            assert(text@.take(m as int)[i as int] != prefix@[i as int]);
            return false;
        }
        i += 1;
    }
    assert(text@.take(m as int) =~= prefix@);
    true
}

/// Whether two texts are equal.
pub(crate) fn same_text(a: &str, b: &str) -> (same: bool)
    ensures
        same == (a@ == b@),
{
    let n = a.unicode_len();
    if n != b.unicode_len() {
        return false;
    }
    let mut i: usize = 0;
    while i < n
        invariant
            i <= n,
            n == a@.len(),
            n == b@.len(),
            forall|j: int| 0 <= j < i ==> a@[j] == b@[j],
        decreases n - i,
    {
        if a.get_char(i) != b.get_char(i) {
            return false;
        }
        i += 1;
    }
    assert(a@ =~= b@);
    true
}

/// The pieces of `text` between occurrences of `sep`.
pub fn split_at(text: &str, sep: char) -> (pieces: Vec<String>)
    ensures
        pieces@.map_values(|p: String| p@) == split_on(text@, sep),
{
    let ghost s = text@;
    let n = text.unicode_len();
    let mut pieces: Vec<String> = Vec::new();
    let mut current = String::new();
    let mut i: usize = 0;
    assert(s.take(0) =~= Seq::<char>::empty());
    assert(pieces@.map_values(|p: String| p@).push(current@) =~= split_on(s.take(0), sep));
    while i < n
        invariant
            i <= n,
            n == s.len(),
            s == text@,
            pieces@.map_values(|p: String| p@).push(current@) == split_on(s.take(i as int), sep),
        decreases n - i,
    {
        let ghost before = pieces@.map_values(|p: String| p@);
        let c = text.get_char(i);
        assert(s.take(i + 1).drop_last() =~= s.take(i as int));
        assert(s.take(i + 1).last() == c);
        if c == sep {
            let done = current;
            pieces.push(done);
            current = String::new();
            assert(pieces@.map_values(|p: String| p@) =~= before.push(done@));
        } else {
            let ghost old_current = current@;
            let piece = text.substring_char(i, i + 1);
            current.append(piece);
            assert(current@ =~= old_current.push(c));
            assert(pieces@.map_values(|p: String| p@).push(current@) =~= before.push(old_current).update(
                before.len() as int,
                old_current.push(c),
            ));
        }
        i += 1;
    }
    assert(s.take(n as int) =~= s);
    pieces.push(current);
    proof {
        let v = pieces@.map_values(|p: String| p@);
        assert(v =~= split_on(s, sep));
    }
    pieces
}

/// The text after the first `k` characters.
fn rest_after(text: &str, k: usize) -> (rest: &str)
    requires
        k <= text@.len(),
    ensures
        rest@ == text@.skip(k as int),
{
    let n = text.unicode_len();
    let r = text.substring_char(k, n);
    assert(r@ =~= text@.skip(k as int));
    r
}

/// The file name for a path given to `save` or `load`.
fn with_extension(stem: &str) -> (path: String)
    ensures
        path@ == stem@ + ".ane"@,
{
    let mut path = stem.to_string();
    path.append(".ane");
    path
}

/// Reads the command a line gives, after trimming white space from both ends.
pub fn parse_command(line: &str) -> (command: Command)
    ensures
        command@ == command_of(trimmed(line@)),
{
    let t = trim(line);
    if starts_with(t, "calc_out ") {
        proof { reveal_strlit("calc_out "); }
        Command::CalcOut { node_id: parse_number_or_zero(rest_after(t, 9)) }
    } else if starts_with(t, "pos ") {
        proof { reveal_strlit("pos "); }
        let args = split_at(rest_after(t, 4), ' ');
        if args.len() != 3 {
            return Command::WrongArgCount;
        }
        Command::Pos {
            node_id: parse_number_or_zero(args[0].as_str()),
            x: parse_number_or_zero(args[1].as_str()),
            y: parse_number_or_zero(args[2].as_str()),
        }
    } else if starts_with(t, "con ") {
        proof { reveal_strlit("con "); }
        let args = split_at(rest_after(t, 4), ' ');
        if args.len() != 3 {
            return Command::WrongArgCount;
        }
        Command::Con {
            from_node_id: parse_number_or_zero(args[0].as_str()),
            to_node_id: parse_number_or_zero(args[1].as_str()),
            input_index: parse_number_or_zero(args[2].as_str()),
        }
    } else if starts_with(t, "set_val ") {
        proof { reveal_strlit("set_val "); }
        let args = split_at(rest_after(t, 8), ' ');
        if args.len() == 2 {
            return Command::SetVal {
                node_id: parse_number_or_zero(args[0].as_str()),
                input_index: parse_number_or_zero(args[1].as_str()),
                text: String::new(),
            };
        }
        if args.len() != 3 {
            return Command::WrongArgCount;
        }
        Command::SetVal {
            node_id: parse_number_or_zero(args[0].as_str()),
            input_index: parse_number_or_zero(args[1].as_str()),
            text: args[2].clone(),
        }
    } else if starts_with(t, "add_node ") {
        proof { reveal_strlit("add_node "); }
        Command::AddNode { title: rest_after(t, 9).to_string() }
    } else if starts_with(t, "del_node ") {
        proof { reveal_strlit("del_node "); }
        Command::DelNode { node_id: parse_usize(rest_after(t, 9)) }
    } else if starts_with(t, "save ") {
        proof { reveal_strlit("save "); }
        Command::Save { path: with_extension(rest_after(t, 5)) }
    } else if starts_with(t, "load ") {
        proof { reveal_strlit("load "); }
        Command::Load { path: with_extension(rest_after(t, 5)) }
    } else if same_text(t, "autosave on") {
        Command::AutoSaveOn
    } else if same_text(t, "autosave off") {
        Command::AutoSaveOff
    } else if same_text(t, "q") {
        Command::Quit
    } else {
        Command::Unknown
    }
}

/// What is left to do after a command, outside the editor.
#[derive(Debug)]
pub enum Reaction {
    /// Nothing.
    Continue,
    /// The connections changed: save if saving after each change is on.
    Changed,
    /// Show a text in the output area.
    ShowOutput { text: String },
    /// Remove a node (disconnect it, save if saving after each change is on, then remove it).
    Remove { node_id: usize },
    /// Save to the file.
    Save { path: String },
    /// Load from the file.
    Load { path: String },
    /// Leave the editor.
    Quit,
    /// Tell the user the command is unknown.
    Unknown,
    /// The command cannot be carried out: the node to evaluate has no value.
    Abort,
}

/// What a reaction holds.
pub enum ReactionView {
    Continue,
    Changed,
    ShowOutput(Seq<char>),
    Remove(usize),
    Save(Seq<char>),
    Load(Seq<char>),
    Quit,
    Unknown,
    Abort,
}

impl View for Reaction {
    type V = ReactionView;

    open spec fn view(&self) -> ReactionView {
        match self {
            Reaction::Continue => ReactionView::Continue,
            Reaction::Changed => ReactionView::Changed,
            Reaction::ShowOutput { text } => ReactionView::ShowOutput(text@),
            Reaction::Remove { node_id } => ReactionView::Remove(*node_id),
            Reaction::Save { path } => ReactionView::Save(path@),
            Reaction::Load { path } => ReactionView::Load(path@),
            Reaction::Quit => ReactionView::Quit,
            Reaction::Unknown => ReactionView::Unknown,
            Reaction::Abort => ReactionView::Abort,
        }
    }
}

/// The commands the editor can carry out: the nodes and sockets named exist, and there is an
/// id left for a node to add.
pub open spec fn command_allowed(e: EditorView, c: CommandView) -> bool {
    match c {
        CommandView::Pos(id, _, _) => e.nodes.contains_key(id),
        CommandView::Con(from, to, index) => {
            &&& e.nodes.contains_key(to)
            &&& index < e.nodes[to].inputs.len()
            &&& e.nodes[to].inputs[index as int].connected != from || from == 0 ==> e.nodes.contains_key(from)
        },
        CommandView::SetVal(id, index, _) => e.nodes.contains_key(id) && index < e.nodes[id].inputs.len(),
        CommandView::AddNode(title) => template_named(title) is Some ==> e.current_id < usize::MAX,
        _ => true,
    }
}

/// The editor after a command.
pub open spec fn state_after(e: EditorView, c: CommandView) -> EditorView {
    match c {
        CommandView::CalcOut(id) => if e.nodes.contains_key(id) {
            EditorView { cache: Map::empty(), ..e }
        } else {
            e
        },
        CommandView::Pos(id, x, y) => EditorView {
            nodes: e.nodes.insert(id, NodeView { x: x, y: y, ..e.nodes[id] }),
            ..e
        },
        CommandView::Con(from, to, index) => EditorView {
            nodes: toggled_graph(e.nodes, from, to, index as int),
            ..e
        },
        CommandView::SetVal(id, index, text) => EditorView {
            nodes: e.nodes.insert(
                id,
                NodeView {
                    inputs: e.nodes[id].inputs.update(
                        index as int,
                        InputView {
                            value: parsed_value(e.nodes[id].inputs[index as int].value, text),
                            ..e.nodes[id].inputs[index as int]
                        },
                    ),
                    ..e.nodes[id]
                },
            ),
            ..e
        },
        CommandView::AddNode(title) => match template_named(title) {
            Some(t) => EditorView {
                nodes: e.nodes.insert(
                    (e.current_id + 1) as usize,
                    NodeView { id: (e.current_id + 1) as usize, x: 2, y: 2, ..template_node(t) },
                ),
                current_id: (e.current_id + 1) as usize,
                ..e
            },
            None => e,
        },
        CommandView::AutoSaveOn => EditorView { auto_save: true, ..e },
        CommandView::AutoSaveOff => EditorView { auto_save: false, ..e },
        _ => e,
    }
}

/// What is left to do after a command.
pub open spec fn reaction_to(e: EditorView, c: CommandView) -> ReactionView {
    match c {
        CommandView::CalcOut(id) => if !e.nodes.contains_key(id) {
            ReactionView::Continue
        } else if node_evaluates(e.nodes, Map::empty(), id) {
            ReactionView::ShowOutput(print_text(node_value(e.nodes, Map::empty(), id)))
        } else {
            ReactionView::Abort
        },
        CommandView::Con(_, _, _) => ReactionView::Changed,
        CommandView::DelNode(Some(id)) => ReactionView::Remove(id),
        CommandView::Save(path) => ReactionView::Save(path),
        CommandView::Load(path) => ReactionView::Load(path),
        CommandView::Quit => ReactionView::Quit,
        CommandView::Unknown => ReactionView::Unknown,
        _ => ReactionView::Continue,
    }
}

impl Editor {
    /// Carries out a command on the editor and tells what is left to do outside it.
    pub fn apply_command(&mut self, command: Command) -> (reaction: Reaction)
        requires
            old(self)@.wf(),
            command_allowed(old(self)@, command@),
        ensures
            final(self)@ == state_after(old(self)@, command@),
            reaction@ == reaction_to(old(self)@, command@),
    {
        match command {
            Command::CalcOut { node_id } => {
                if self.get_node(node_id).is_none() {
                    return Reaction::Continue;
                }
                match self.try_evaluate_node(node_id) {
                    Some(value) => Reaction::ShowOutput { text: value.get_print_text() },
                    None => Reaction::Abort,
                }
            },
            Command::Pos { node_id, x, y } => {
                self.set_position(node_id, x, y);
                Reaction::Continue
            },
            Command::Con { from_node_id, to_node_id, input_index } => {
                self.toggle_connection(from_node_id, to_node_id, input_index);
                Reaction::Changed
            },
            Command::SetVal { node_id, input_index, text } => {
                self.set_input_value(node_id, input_index, text.as_str());
                Reaction::Continue
            },
            Command::AddNode { title } => {
                self.add_node_by_title(title.as_str());
                Reaction::Continue
            },
            Command::DelNode { node_id } => match node_id {
                Some(id) => Reaction::Remove { node_id: id },
                None => Reaction::Continue,
            },
            Command::Save { path } => Reaction::Save { path },
            Command::Load { path } => Reaction::Load { path },
            Command::AutoSaveOn => {
                self.enable_auto_save();
                Reaction::Continue
            },
            Command::AutoSaveOff => {
                self.disable_auto_save();
                Reaction::Continue
            },
            Command::Quit => Reaction::Quit,
            Command::WrongArgCount => Reaction::Continue,
            Command::Unknown => Reaction::Unknown,
        }
    }
}

} // verus!
