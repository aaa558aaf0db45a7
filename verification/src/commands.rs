//! The subcommands and what each of them writes: the line that switches an
//! address on, the block of the hosts file that the tool manages, and the
//! hosts file with that block renewed.

use crate::text::{
    append, chars_of, find, first_occurrence, join, joined, lemma_first_from, nonempty,
    occurs_at, pieces, rows, slice, split, string_of, trim, trimmed, without_empty,
};
use vstd::prelude::*;

verus! {

/// Marks the start of the block that the tool manages.
pub const HEAD_COMMENT: &'static str = "# tospoof: {{";

/// Marks the end of the block that the tool manages.
pub const FOOT_COMMENT: &'static str = "# tospoof: }}";

/// The text at which `pretty_format` cuts its input into lines.
pub const LINE_BREAK: &'static str = "(\n|\r)+";

/// What `str::to_lowercase` returns for a text.
pub uninterp spec fn lowercase(text: Seq<char>) -> Seq<char>;

/// `str::to_lowercase` returns the lowercase equivalent of a text, which
/// depends on the text alone. The contract only names it.
pub assume_specification[ str::to_lowercase ](text: &str) -> (r: String)
    ensures
        r@ == lowercase(text@),
;

/// All the commands.
#[derive(Debug)]
pub enum Command {
    /// Enables an alias and writes the line for it.
    ON,
    /// Writes the block of the hosts file that the tool manages.
    PRINT,
    /// Renews the block of the hosts file that the tool manages.
    UPDATE,
}

/// What a command writes back once the hosts file is renewed.
#[derive(Debug)]
pub enum Echo {
    Nothing,
    Block,
    Whole,
}

/// Why the hosts file cannot be cut into blocks.
#[derive(Debug)]
pub enum HostsError {
    /// The head comment is there and the foot comment is not.
    FootMissing,
    /// The foot comment is there and the head comment is not.
    HeadMissing,
    /// The foot comment starts before the head comment ends.
    FootBeforeHead,
}

impl Command {
    /// The name of the command on the command line.
    pub open spec fn name(self) -> Seq<char> {
        match self {
            Command::ON => "on"@,
            Command::PRINT => "print"@,
            Command::UPDATE => "update"@,
        }
    }

    /// The least number of arguments that the command takes.
    pub open spec fn min_args(self) -> nat {
        match self {
            Command::ON => 2,
            Command::PRINT => 0,
            Command::UPDATE => 0,
        }
    }

    /// The command that has this name, if there is one.
    pub open spec fn named_by(name: Seq<char>) -> Option<Command> {
        if name == "on"@ {
            Some(Command::ON)
        } else if name == "print"@ {
            Some(Command::PRINT)
        } else if name == "update"@ {
            Some(Command::UPDATE)
        } else {
            None
        }
    }

    /// The command that has this name, if there is one.
    pub fn named(name: &str) -> (r: Option<Command>)
        ensures
            r == Command::named_by(name@),
    {
        let name = name.to_owned();
        if name == "on".to_owned() {
            Some(Command::ON)
        } else if name == "print".to_owned() {
            Some(Command::PRINT)
        } else if name == "update".to_owned() {
            Some(Command::UPDATE)
        } else {
            None
        }
    }

    /// Reads a command from its name, in upper or lower case.
    pub fn from_str(cmd: &str) -> (r: Result<Command, String>)
        ensures
            match Command::named_by(lowercase(cmd@)) {
                Some(command) => r == Ok::<Command, String>(command),
                None => r matches Err(message) && message@ == "unsupported command: "@ + cmd@,
            },
    {
        match Command::named(cmd.to_lowercase().as_str()) {
            Some(command) => Ok(command),
            None => {
                let mut message = chars_of("unsupported command: ");
                append(&mut message, &chars_of(cmd));
                Err(string_of(&message))
            },
        }
    }

    /// The name of the command on the command line.
    pub fn to_string(&self) -> (r: String)
        ensures
            r@ == self.name(),
    {
        match self {
            Command::ON => "on".to_owned(),
            Command::PRINT => "print".to_owned(),
            Command::UPDATE => "update".to_owned(),
        }
    }

    /// Refuses a list of arguments that is shorter than the command needs.
    pub fn validate_args_count(&self, args: &[String]) -> (r: Result<(), String>)
        ensures
            match r {
                Ok(_) => args.len() >= self.min_args(),
                Err(message) => args.len() < self.min_args() && message@
                    == "not enough arguments for '"@ + self.name() + "'"@,
            },
    {
        let min: usize = match self {
            Command::ON => 2,
            Command::PRINT => 0,
            Command::UPDATE => 0,
        };
        if args.len() < min {
            let mut message = chars_of("not enough arguments for '");
            append(&mut message, &chars_of(self.to_string().as_str()));
            append(&mut message, &chars_of("'"));
            Err(string_of(&message))
        } else {
            Ok(())
        }
    }
}

/// What is written back after an update for a given number of `verbose`
/// flags: the renewed block for one, the whole file for two to nine, and
/// nothing otherwise.
pub fn echo(verbose: u64) -> (r: Echo)
    ensures
        verbose == 1 ==> r is Block,
        2 <= verbose <= 9 ==> r is Whole,
        verbose == 0 || verbose > 9 ==> r is Nothing,
{
    if verbose == 1 {
        Echo::Block
    } else if 2 <= verbose && verbose <= 9 {
        Echo::Whole
    } else {
        Echo::Nothing
    }
}

/// The lines of `content`, each without the whitespace at its ends, joined
/// by line feeds. The lines are the pieces of `content` between the
/// occurrences of `LINE_BREAK` that are not empty.
pub open spec fn pretty(content: Seq<char>) -> Seq<char> {
    joined(
        pieces(content, LINE_BREAK@).filter(nonempty()).map_values(|line: Seq<char>| trimmed(line)),
        seq!['\n'],
    )
}

/// Trims the lines of `content` and joins them by line feeds.
pub fn pretty_format(content: &str) -> (r: String)
    ensures
        r@ == pretty(content@),
{
    let mark = chars_of(LINE_BREAK);
    proof {
        reveal_strlit("(\n|\r)+");
    }
    let lines = without_empty(&split(&chars_of(content), &mark));
    let mut trimmed_lines: Vec<Vec<char>> = Vec::new();
    let mut i: usize = 0;
    while i < lines.len()
        invariant
            i <= lines.len(),
            trimmed_lines.len() == i,
            forall|j: int| 0 <= j < i ==> #[trigger] trimmed_lines[j]@ == trimmed(lines[j]@),
        decreases lines.len() - i,
    {
        trimmed_lines.push(trim(&lines[i]));
        i += 1;
    }
    assert(rows(trimmed_lines@) =~= rows(lines@).map_values(|line: Seq<char>| trimmed(line)));
    let mut feed: Vec<char> = Vec::new();
    feed.push('\n');
    assert(feed@ =~= seq!['\n']);
    string_of(&join(&trimmed_lines, &feed))
}

/// The three blocks of the content of a hosts file: what stands before the
/// first head comment, what stands between it and the first foot comment,
/// and what stands after that foot comment. Content without either comment
/// is one block followed by two empty ones.
pub open spec fn blocks_of(content: Seq<char>) -> Result<
    (Seq<char>, Seq<char>, Seq<char>),
    HostsError,
> {
    match (first_occurrence(content, HEAD_COMMENT@), first_occurrence(content, FOOT_COMMENT@)) {
        (Some(left), Some(right)) => if right < left + HEAD_COMMENT@.len() {
            Err(HostsError::FootBeforeHead)
        } else {
            Ok(
                (
                    content.take(left),
                    content.subrange(left + HEAD_COMMENT@.len(), right),
                    content.skip(right + FOOT_COMMENT@.len()),
                ),
            )
        },
        (Some(_), None) => Err(HostsError::FootMissing),
        (None, Some(_)) => Err(HostsError::HeadMissing),
        (None, None) => Ok((content, Seq::empty(), Seq::empty())),
    }
}

/// Cuts the content of a hosts file into its three blocks.
pub fn split_hosts_content_blocks(content: &str) -> (r: Result<
    (String, String, String),
    HostsError,
>)
    ensures
        match blocks_of(content@) {
            Ok(blocks) => r matches Ok(found) && found.0@ == blocks.0 && found.1@ == blocks.1
                && found.2@ == blocks.2,
            Err(error) => r matches Err(found) && found == error,
        },
{
    let chars = chars_of(content);
    let head = chars_of(HEAD_COMMENT);
    let foot = chars_of(FOOT_COMMENT);
    let end: usize = chars.len();
    proof {
        lemma_first_from(chars@, head@, 0);
        lemma_first_from(chars@, foot@, 0);
    }
    match find(&chars, &head) {
        Some(left) => match find(&chars, &foot) {
            Some(right) => {
                assert(occurs_at(chars@, head@, left as int));
                assert(occurs_at(chars@, foot@, right as int));
                if right < left + head.len() {
                    Err(HostsError::FootBeforeHead)
                } else {
                    let before = slice(&chars, 0, left);
                    let between = slice(&chars, left + head.len(), right);
                    let after = slice(&chars, right + foot.len(), end);
                    Ok((string_of(&before), string_of(&between), string_of(&after)))
                }
            },
            None => Err(HostsError::FootMissing),
        },
        None => match find(&chars, &foot) {
            Some(_) => Err(HostsError::HeadMissing),
            None => Ok((string_of(&chars), String::new(), String::new())),
        },
    }
}

/// The block of a hosts file that the tool manages, made pretty.
pub fn print(hosts: &str) -> (r: Result<String, HostsError>)
    ensures
        match blocks_of(hosts@) {
            Ok(blocks) => r matches Ok(block) && block@ == pretty(blocks.1),
            Err(error) => r matches Err(found) && found == error,
        },
{
    match split_hosts_content_blocks(hosts) {
        Ok(blocks) => Ok(pretty_format(blocks.1.as_str())),
        Err(error) => Err(error),
    }
}

/// The content of a hosts file with the managed block renewed from `input`.
///
/// Where the managed block is empty or missing, a new one is put after the
/// first block; otherwise what stands between the two comments is replaced.
pub open spec fn renewed(input: Seq<char>, blocks: (Seq<char>, Seq<char>, Seq<char>)) -> Seq<
    char,
> {
    if blocks.1.len() == 0 {
        blocks.0 + "\n"@ + HEAD_COMMENT@ + "\n\n"@ + pretty(input) + "\n\n"@ + FOOT_COMMENT@
            + "\n"@
    } else {
        blocks.0 + HEAD_COMMENT@ + "\n\n"@ + pretty(input) + "\n\n"@ + FOOT_COMMENT@ + blocks.2
    }
}

/// Renews the managed block of a hosts file from `input` and returns the
/// new content of the file.
pub fn update(input: &str, hosts: &str) -> (r: Result<String, HostsError>)
    ensures
        match blocks_of(hosts@) {
            Ok(blocks) => r matches Ok(content) && content@ == renewed(input@, blocks),
            Err(error) => r matches Err(found) && found == error,
        },
{
    let blocks = match split_hosts_content_blocks(hosts) {
        Ok(blocks) => blocks,
        Err(error) => {
            return Err(error);
        },
    };
    let mut content = chars_of(blocks.0.as_str());
    let fresh = blocks.1.as_str().is_empty();
    if fresh {
        append(&mut content, &chars_of("\n"));
    }
    append(&mut content, &chars_of(HEAD_COMMENT));
    append(&mut content, &chars_of("\n\n"));
    append(&mut content, &chars_of(pretty_format(input).as_str()));
    append(&mut content, &chars_of("\n\n"));
    append(&mut content, &chars_of(FOOT_COMMENT));
    if fresh {
        append(&mut content, &chars_of("\n"));
    } else {
        append(&mut content, &chars_of(blocks.2.as_str()));
    }
    Ok(string_of(&content))
}

/// What switching an address on writes: the input, a comment that names
/// the address, and a line with the resolved address followed by the other
/// arguments, all made pretty.
pub open spec fn switched_on(input: Seq<char>, args: Seq<Seq<char>>, resolved: Seq<char>) -> Seq<
    char,
> {
    pretty(
        input + "\n# tospoof: on: addr = "@ + args[0] + "\n"@ + resolved + " "@ + joined(
            args.skip(1),
            " "@,
        ),
    )
}

/// Writes what switching on the address `args[0]` adds to the input, where
/// `resolved` is what the address resolves to.
pub fn on(input: &str, args: &[String], resolved: &str) -> (r: String)
    requires
        args.len() >= 1,
    ensures
        r@ == switched_on(input@, args.deep_view(), resolved@),
{
    let mut others: Vec<Vec<char>> = Vec::new();
    let mut i: usize = 1;
    while i < args.len()
        invariant
            1 <= i <= args.len(),
            others.len() == i - 1,
            forall|j: int| 0 <= j < i - 1 ==> #[trigger] others[j]@ == args[j + 1]@,
        decreases args.len() - i,
    {
        others.push(chars_of(args[i].as_str()));
        i += 1;
    }
    assert(rows(others@) =~= args.deep_view().skip(1));
    let mut content = chars_of(input);
    append(&mut content, &chars_of("\n# tospoof: on: addr = "));
    append(&mut content, &chars_of(args[0].as_str()));
    append(&mut content, &chars_of("\n"));
    append(&mut content, &chars_of(resolved));
    append(&mut content, &chars_of(" "));
    append(&mut content, &join(&others, &chars_of(" ")));
    pretty_format(string_of(&content).as_str())
}

} // verus!
