//! The console's commands: their names, descriptions and help text.
use vstd::prelude::*;
use vstd::string::StringExecFns;

verus! {

/// The commands of the console, in the order the help lists them.
#[derive(Clone, Copy, Debug, PartialEq, Eq, Structural)]
pub enum Commands {
    Connect,
    Update,
    List,
    Message,
    Test,
    Exit,
}

/// The error of [`Commands::parse`]: the text names no command.
#[derive(Clone, Copy, Debug, PartialEq, Eq, Structural)]
pub enum ParseCommandError {
    VariantNotFound,
}

/// The commands in their declared order.
pub open spec fn all_commands() -> Seq<Commands> {
    seq![Commands::Connect, Commands::Update, Commands::List, Commands::Message, Commands::Test, Commands::Exit]
}

/// The name that a user types for `c`: the variant's own name.
pub open spec fn command_name(c: Commands) -> Seq<char> {
    match c {
        Commands::Connect => "Connect"@,
        Commands::Update => "Update"@,
        Commands::List => "List"@,
        Commands::Message => "Message"@,
        Commands::Test => "Test"@,
        Commands::Exit => "Exit"@,
    }
}

/// The short description of `c`, where it has one.
pub open spec fn command_message(c: Commands) -> Option<Seq<char>> {
    match c {
        Commands::Connect => Some("Connect"@),
        Commands::Update => Some("Update"@),
        Commands::List => Some("List"@),
        Commands::Message => Some("Message"@),
        Commands::Test => None,
        Commands::Exit => Some("Exit"@),
    }
}

/// The long description of `c`, where it has one.
pub open spec fn command_detailed_message(c: Commands) -> Option<Seq<char>> {
    match c {
        Commands::Connect => Some("This creates a new chat"@),
        Commands::Update => Some("This retrieves any new messages and connections"@),
        Commands::List => Some("This displays all current connections"@),
        Commands::Message => Some("This sends a message"@),
        Commands::Test => None,
        Commands::Exit => Some("This exits the program"@),
    }
}

/// The help line of `c`: its short description (else its name), a dash and
/// its long description (else a stock text).
pub open spec fn help_line(c: Commands) -> Seq<char> {
    let title = match command_message(c) {
        Some(m) => m,
        None => command_name(c),
    };
    let detail = match command_detailed_message(c) {
        Some(d) => d,
        None => "No Help Message :("@,
    };
    "      "@ + title + " - "@ + detail + "\n"@
}

/// The help lines of `cs`, one after the other.
pub open spec fn help_lines(cs: Seq<Commands>) -> Seq<char>
    decreases cs.len(),
{
    if cs.len() == 0 {
        Seq::empty()
    } else {
        help_lines(cs.drop_last()) + help_line(cs.last())
    }
}

/// The help text: a heading, then a line for each command in order.
pub open spec fn help_dialog() -> Seq<char> {
    "Possible commands:\n"@ + help_lines(all_commands())
}

/// Distinct commands have distinct names, so a name parses back to the
/// command it names.
pub proof fn lemma_command_names_distinct(a: Commands, b: Commands)
    ensures
        command_name(a) == command_name(b) ==> a == b,
{
    reveal_strlit("Connect");
    reveal_strlit("Update");
    reveal_strlit("List");
    reveal_strlit("Message");
    reveal_strlit("Test");
    reveal_strlit("Exit");
    if command_name(a) == command_name(b) && a != b {
        assert(command_name(a).len() == command_name(b).len());
        assert(command_name(a)[0] == command_name(b)[0]);
        assert(command_name(a)[1] == command_name(b)[1]);
    }
}

/// The title that the help lists for each command is the very text that
/// `parse` accepts for it: the short description, where a command has one,
/// is its name.
pub proof fn lemma_help_titles_parse(c: Commands)
    ensures
        command_message(c) matches Some(m) ==> m == command_name(c),
        (match command_message(c) {
            Some(m) => m,
            None => command_name(c),
        }) == command_name(c),
{
}

/// A command's name is spelled exactly as its variant, capitals included:
/// the text a user types is the identifier that the help shows.
pub proof fn lemma_command_names_spelled(c: Commands)
    ensures
        command_name(c) == match c {
            Commands::Connect => seq!['C', 'o', 'n', 'n', 'e', 'c', 't'],
            Commands::Update => seq!['U', 'p', 'd', 'a', 't', 'e'],
            Commands::List => seq!['L', 'i', 's', 't'],
            Commands::Message => seq!['M', 'e', 's', 's', 'a', 'g', 'e'],
            Commands::Test => seq!['T', 'e', 's', 't'],
            Commands::Exit => seq!['E', 'x', 'i', 't'],
        },
{
    reveal_strlit("Connect");
    reveal_strlit("Update");
    reveal_strlit("List");
    reveal_strlit("Message");
    reveal_strlit("Test");
    reveal_strlit("Exit");
    assert(command_name(c) =~= match c {
        Commands::Connect => seq!['C', 'o', 'n', 'n', 'e', 'c', 't'],
        Commands::Update => seq!['U', 'p', 'd', 'a', 't', 'e'],
        Commands::List => seq!['L', 'i', 's', 't'],
        Commands::Message => seq!['M', 'e', 's', 's', 'a', 'g', 'e'],
        Commands::Test => seq!['T', 'e', 's', 't'],
        Commands::Exit => seq!['E', 'x', 'i', 't'],
    });
}

impl Commands {
    /// Every command, in the declared order.
    pub fn all() -> (cs: Vec<Commands>)
        ensures
            cs@ == all_commands(),
    {
        let cs = vec![Commands::Connect, Commands::Update, Commands::List, Commands::Message,
            Commands::Test, Commands::Exit];
        assert(cs@ =~= all_commands());
        cs
    }

    /// The command's name.
    pub fn as_str(&self) -> (s: &'static str)
        ensures
            s@ == command_name(*self),
    {
        match self {
            Commands::Connect => "Connect",
            Commands::Update => "Update",
            Commands::List => "List",
            Commands::Message => "Message",
            Commands::Test => "Test",
            Commands::Exit => "Exit",
        }
    }

    /// The command's short description, if it has one.
    pub fn get_message(&self) -> (m: Option<&'static str>)
        ensures
            match (m, command_message(*self)) {
                (Some(a), Some(b)) => a@ == b,
                (None, None) => true,
                _ => false,
            },
    {
        match self {
            Commands::Connect => Some("Connect"),
            Commands::Update => Some("Update"),
            Commands::List => Some("List"),
            Commands::Message => Some("Message"),
            Commands::Test => None,
            Commands::Exit => Some("Exit"),
        }
    }

    /// The command's long description, if it has one.
    pub fn get_detailed_message(&self) -> (m: Option<&'static str>)
        ensures
            match (m, command_detailed_message(*self)) {
                (Some(a), Some(b)) => a@ == b,
                (None, None) => true,
                _ => false,
            },
    {
        match self {
            Commands::Connect => Some("This creates a new chat"),
            Commands::Update => Some("This retrieves any new messages and connections"),
            Commands::List => Some("This displays all current connections"),
            Commands::Message => Some("This sends a message"),
            Commands::Test => None,
            Commands::Exit => Some("This exits the program"),
        }
    }

    /// The command whose name is exactly `input`.
    pub fn parse(input: &String) -> (r: Result<Commands, ParseCommandError>)
        ensures
            match r {
                Ok(c) => input@ == command_name(c),
                Err(_) => forall|c: Commands| input@ != command_name(c),
            },
            forall|c: Commands| input@ == command_name(c) ==> r == Ok::<Commands, ParseCommandError>(c),
    {
        let cs = Commands::all();
        let mut i: usize = 0;
        while i < cs.len()
            invariant
                cs@ == all_commands(),
                i <= cs.len(),
                forall|j: int| 0 <= j < i ==> input@ != command_name(#[trigger] cs@[j]),
            decreases cs.len() - i,
        {
            let name = String::from_str(cs[i].as_str());
            if *input == name {
                proof {
                    assert forall|c: Commands| input@ == command_name(c) implies c == cs@[i as int] by {
                        lemma_command_names_distinct(c, cs@[i as int]);
                    }
                }
                return Ok(cs[i]);
            }
            i = i + 1;
        }
        assert forall|c: Commands| input@ != command_name(c) by {
            match c {
                Commands::Connect => assert(cs@[0] == c),
                Commands::Update => assert(cs@[1] == c),
                Commands::List => assert(cs@[2] == c),
                Commands::Message => assert(cs@[3] == c),
                Commands::Test => assert(cs@[4] == c),
                Commands::Exit => assert(cs@[5] == c),
            }
        }
        Err(ParseCommandError::VariantNotFound)
    }

    /// The help text that lists every command (see [`help_dialog`]).
    pub fn get_help_dialog() -> (out: String)
        ensures
            out@ == help_dialog(),
    {
        let mut out = String::new();
        out.append("Possible commands:\n");
        let cs = Commands::all();
        let mut i: usize = 0;
        assert(cs@.take(0) =~= Seq::<Commands>::empty());
        while i < cs.len()
            invariant
                cs@ == all_commands(),
                i <= cs.len(),
                out@ == "Possible commands:\n"@ + help_lines(cs@.take(i as int)),
            decreases cs.len() - i,
        {
            let c = cs[i];
            let title = match c.get_message() {
                Some(m) => m,
                None => c.as_str(),
            };
            let detail = match c.get_detailed_message() {
                Some(d) => d,
                None => "No Help Message :(",
            };
            let ghost before = out@;
            out.append("      ");
            out.append(title);
            out.append(" - ");
            out.append(detail);
            out.append("\n");
            assert(cs@.take(i as int + 1).drop_last() =~= cs@.take(i as int));
            assert(out@ =~= before + help_line(c));
            i = i + 1;
        }
        assert(cs@.take(cs.len() as int) =~= cs@);
        out
    }
}

} // verus!
