//! What is to be written when a game is unpacked.
use crate::text;
use vstd::prelude::*;
use vstd::string::*;
use vstd::utf8::*;

verus! {

/// What a script belongs to.
#[derive(Debug, Clone, Copy, PartialEq, Eq, Structural)]
pub enum Scope {
    /// The script with this number, which any room can run.
    Global(i32),
    /// The script of the room, with its number.
    RoomLocal(i32, i32),
    /// The script that runs when the room is entered.
    RoomEnter(i32),
    /// The script that runs when the room is left.
    RoomExit(i32),
    /// A verb of the room's object.
    Verb(i32, u16),
}

/// A file to be written.
#[derive(Debug)]
pub struct OutputFile {
    pub path: String,
    pub data: Vec<u8>,
}

/// A script whose disassembly and decompilation are to be written.
#[derive(Debug)]
pub struct ScriptOutput {
    /// The path of the files, without what tells them apart.
    pub stem: String,
    pub code: Vec<u8>,
    pub scope: Scope,
    /// The number under which the script is filed.
    pub number: i32,
    /// Whether the decompilation goes to the published scripts as well.
    pub publish: bool,
}

/// Something to be written.
#[derive(Debug)]
pub enum Output {
    /// The content of a block.
    Block(OutputFile),
    /// The list of what a container holds.
    Listing(OutputFile),
    /// A script.
    Script(ScriptOutput),
}

/// What an [`OutputFile`] says.
pub struct FileView {
    pub path: Seq<char>,
    pub data: Seq<u8>,
}

/// What a [`ScriptOutput`] says.
pub struct ScriptView {
    pub stem: Seq<char>,
    pub code: Seq<u8>,
    pub scope: Scope,
    pub number: i32,
    pub publish: bool,
}

/// What an [`Output`] says.
pub enum OutputView {
    Block(FileView),
    Listing(FileView),
    Script(ScriptView),
}

impl View for OutputFile {
    type V = FileView;

    open spec fn view(&self) -> FileView {
        FileView { path: self.path@, data: self.data@ }
    }
}

impl View for ScriptOutput {
    type V = ScriptView;

    open spec fn view(&self) -> ScriptView {
        ScriptView {
            stem: self.stem@,
            code: self.code@,
            scope: self.scope,
            number: self.number,
            publish: self.publish,
        }
    }
}

impl View for Output {
    type V = OutputView;

    open spec fn view(&self) -> OutputView {
        match self {
            Output::Block(file) => OutputView::Block(file@),
            Output::Listing(file) => OutputView::Listing(file@),
            Output::Script(script) => OutputView::Script(script@),
        }
    }
}

/// What a list of outputs says.
pub open spec fn views(outs: Seq<Output>) -> Seq<OutputView> {
    outs.map_values(|out: Output| out@)
}

/// What a list of files says.
pub open spec fn file_views(files: Seq<OutputFile>) -> Seq<FileView> {
    files.map_values(|file: OutputFile| file@)
}

/// What a published script is called, before its own name.
pub open spec fn published_stem(scope: Scope, number: int) -> Seq<char> {
    match scope {
        Scope::Global(script) => "scr"@ + text::decimal(script as int, 4),
        Scope::RoomLocal(room, script) => text::decimal(room as int, 2) + "/lsc"@ + text::decimal(
            script as int,
            4,
        ),
        Scope::RoomEnter(room) => text::decimal(room as int, 2) + "/enter"@,
        Scope::RoomExit(room) => text::decimal(room as int, 2) + "/exit"@,
        Scope::Verb(room, object) => text::decimal(room as int, 2) + "/obj"@ + text::decimal(
            object as int,
            4,
        ) + " verb"@ + text::decimal(number, 2),
    }
}

/// Where a script is published. `name` is the script's own name, if it has one.
pub open spec fn published_path(scope: Scope, number: int, name: Option<Seq<char>>) -> Seq<char> {
    let stem = "scripts/"@ + published_stem(scope, number);
    match name {
        Some(name) => stem + " "@ + name + ".scu"@,
        None => stem + ".scu"@,
    }
}

/// The files that the decompilation `decomp` of a script goes to.
pub open spec fn decompiled_views(
    script: ScriptView,
    decomp: Seq<char>,
    name: Option<Seq<char>>,
) -> Seq<FileView> {
    let own = FileView { path: script.stem + ".scu"@, data: encode_utf8(decomp) };
    if script.publish {
        let path = published_path(script.scope, script.number as int, name);
        seq![own, FileView { path, data: encode_utf8(decomp) }]
    } else {
        seq![own]
    }
}

/// The files that the texts of a script go to: first the disassembly, then the decompilation.
pub open spec fn script_views(
    script: ScriptView,
    disasm: Seq<char>,
    decomp: Seq<char>,
    name: Option<Seq<char>>,
) -> Seq<FileView> {
    seq![FileView { path: script.stem + ".s"@, data: encode_utf8(disasm) }] + decompiled_views(
        script,
        decomp,
        name,
    )
}

/// The text that an optional string holds.
pub open spec fn optional_text(s: Option<&str>) -> Option<Seq<char>> {
    match s {
        Some(s) => Some(s@),
        None => None,
    }
}

/// Spells where a script is published.
fn format_published_path(scope: Scope, number: i32, name: Option<&str>) -> (r: String)
    ensures
        r@ == published_path(scope, number as int, optional_text(name)),
{
    let mut path: String = "scripts/".to_owned();
    match scope {
        Scope::Global(script) => {
            path.append("scr");
            text::push_decimal(&mut path, script, 4);
        },
        Scope::RoomLocal(room, script) => {
            text::push_decimal(&mut path, room, 2);
            path.append("/lsc");
            text::push_decimal(&mut path, script, 4);
        },
        Scope::RoomEnter(room) => {
            text::push_decimal(&mut path, room, 2);
            path.append("/enter");
        },
        Scope::RoomExit(room) => {
            text::push_decimal(&mut path, room, 2);
            path.append("/exit");
        },
        Scope::Verb(room, object) => {
            text::push_decimal(&mut path, room, 2);
            path.append("/obj");
            text::push_decimal(&mut path, object as i32, 4);
            path.append(" verb");
            text::push_decimal(&mut path, number, 2);
        },
    }
    assert(path@ =~= "scripts/"@ + published_stem(scope, number as int));
    match name {
        Some(name) => {
            path.append(" ");
            path.append(name);
        },
        None => {},
    }
    path.append(".scu");
    path
}

/// Makes a file of a text.
fn text_file(path: String, content: &str) -> (r: OutputFile)
    ensures
        r@ == (FileView { path: path@, data: encode_utf8(content@) }),
{
    OutputFile { path, data: content.as_bytes_vec() }
}

impl ScriptOutput {
    /// The file that the disassembly `disasm` of the script goes to.
    pub fn disassembly_file(&self, disasm: &str) -> (r: OutputFile)
        ensures
            r@ == (FileView { path: self.stem@ + ".s"@, data: encode_utf8(disasm@) }),
    {
        let mut path: String = self.stem.clone();
        path.append(".s");
        text_file(path, disasm)
    }

    /// The files that the decompilation `decomp` of the script goes to. `name` is the script's own
    /// name, if it has one.
    pub fn decompiled_files(&self, decomp: &str, name: Option<&str>) -> (r: Vec<OutputFile>)
        ensures
            file_views(r@) == decompiled_views(
                self@,
                decomp@,
                optional_text(name),
            ),
    {
        let mut files: Vec<OutputFile> = Vec::new();
        let mut path: String = self.stem.clone();
        path.append(".scu");
        files.push(text_file(path, decomp));
        if self.publish {
            files.push(text_file(format_published_path(self.scope, self.number, name), decomp));
        }
        assert(file_views(files@) =~= decompiled_views(
            self@,
            decomp@,
            optional_text(name),
        ));
        files
    }

    /// The files that the texts of the script go to, in the order in which they are written.
    pub fn files(&self, disasm: &str, decomp: &str, name: Option<&str>) -> (r: Vec<OutputFile>)
        ensures
            file_views(r@) == script_views(self@, disasm@, decomp@, optional_text(name)),
    {
        let mut files: Vec<OutputFile> = Vec::new();
        files.push(self.disassembly_file(disasm));
        let mut rest: Vec<OutputFile> = self.decompiled_files(decomp, name);
        let ghost last = rest@;
        files.append(&mut rest);
        assert(file_views(files@) =~= seq![files@[0]@] + file_views(last));
        files
    }
}

/// An optional string holds its text, or none.
pub proof fn law_optional_texts(s: &str)
    ensures
        optional_text(Some(s)) == Some(s@),
        optional_text(None) == None::<Seq<char>>,
{
}

/// Nothing of an output is left out of what it says.
pub proof fn law_outputs_are_seen_whole(outs: Seq<Output>, files: Seq<OutputFile>)
    ensures
        views(outs).len() == outs.len(),
        forall|i: int|
            0 <= i < outs.len() ==> match #[trigger] outs[i] {
                Output::Block(file) => views(outs)[i] == OutputView::Block(
                    FileView { path: file.path@, data: file.data@ },
                ),
                Output::Listing(file) => views(outs)[i] == OutputView::Listing(
                    FileView { path: file.path@, data: file.data@ },
                ),
                Output::Script(script) => views(outs)[i] == OutputView::Script(
                    ScriptView {
                        stem: script.stem@,
                        code: script.code@,
                        scope: script.scope,
                        number: script.number,
                        publish: script.publish,
                    },
                ),
            },
        file_views(files).len() == files.len(),
        forall|i: int|
            0 <= i < files.len() ==> file_views(files)[i] == (FileView {
                path: (#[trigger] files[i]).path@,
                data: files[i].data@,
            }),
{
}

/// Published scripts go to `scripts/`. Global ones are called after their number, all others stand
/// in the directory of their room and are called after what they are. The name of a script follows
/// behind a blank.
pub proof fn law_published_scripts_are_called(
    n: i32,
    room: i32,
    object: u16,
    verb: int,
    scope: Scope,
    name: Seq<char>,
)
    ensures
        published_path(Scope::Global(n), verb, None) == "scripts/scr"@ + text::decimal(n as int, 4)
            + ".scu"@,
        published_path(Scope::RoomLocal(room, n), verb, None) == "scripts/"@ + text::decimal(
            room as int,
            2,
        ) + "/lsc"@ + text::decimal(n as int, 4) + ".scu"@,
        published_path(Scope::RoomEnter(room), verb, None) == "scripts/"@ + text::decimal(
            room as int,
            2,
        ) + "/enter.scu"@,
        published_path(Scope::RoomExit(room), verb, None) == "scripts/"@ + text::decimal(
            room as int,
            2,
        ) + "/exit.scu"@,
        published_path(Scope::Verb(room, object), verb, None) == "scripts/"@ + text::decimal(
            room as int,
            2,
        ) + "/obj"@ + text::decimal(object as int, 4) + " verb"@ + text::decimal(verb, 2)
            + ".scu"@,
        published_path(scope, verb, Some(name)) == published_path(scope, verb, None).take(
            published_path(scope, verb, None).len() - 4,
        ) + " "@ + name + ".scu"@,
{
    reveal_strlit("scripts/");
    reveal_strlit("scr");
    reveal_strlit("scripts/scr");
    reveal_strlit("/enter");
    reveal_strlit("/enter.scu");
    reveal_strlit("/exit");
    reveal_strlit("/exit.scu");
    reveal_strlit(".scu");
    assert("scripts/scr"@ =~= "scripts/"@ + "scr"@);
    assert("/enter.scu"@ =~= "/enter"@ + ".scu"@);
    assert("/exit.scu"@ =~= "/exit"@ + ".scu"@);
    let r2 = text::decimal(room as int, 2);
    assert(published_path(Scope::Global(n), verb, None) =~= "scripts/scr"@ + text::decimal(
        n as int,
        4,
    ) + ".scu"@);
    assert(published_path(Scope::RoomLocal(room, n), verb, None) =~= "scripts/"@ + r2 + "/lsc"@
        + text::decimal(n as int, 4) + ".scu"@);
    assert(published_path(Scope::RoomEnter(room), verb, None) =~= "scripts/"@ + r2
        + "/enter.scu"@);
    assert(published_path(Scope::RoomExit(room), verb, None) =~= "scripts/"@ + r2 + "/exit.scu"@);
    assert(published_path(Scope::Verb(room, object), verb, None) =~= "scripts/"@ + r2 + "/obj"@
        + text::decimal(object as int, 4) + " verb"@ + text::decimal(verb, 2) + ".scu"@);
    let plain = published_path(scope, verb, None);
    let stem = "scripts/"@ + published_stem(scope, verb);
    assert(plain.take(plain.len() - 4) =~= stem);
}

/// A script that is not published has two files: its disassembly, which ends in `.s`, and its
/// decompilation, which ends in `.scu`. Publishing adds a third, with the text of the second.
pub proof fn law_script_files(
    script: ScriptView,
    disasm: Seq<char>,
    decomp: Seq<char>,
    name: Option<Seq<char>>,
)
    ensures
        ({
            let files = script_views(script, disasm, decomp, name);
            &&& files.len() == if script.publish {
                3int
            } else {
                2int
            }
            &&& files[0] == (FileView { path: script.stem + ".s"@, data: encode_utf8(disasm) })
            &&& files[1] == (FileView { path: script.stem + ".scu"@, data: encode_utf8(decomp) })
            &&& script.publish ==> files[2] == (FileView {
                path: published_path(script.scope, script.number as int, name),
                data: files[1].data,
            })
        }),
{
}

} // verus!
