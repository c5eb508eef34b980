use vstd::prelude::*;

verus! {

/// One compilation-unit build invocation: the working directory the command
/// runs in, the full command line, the source file it compiles (the
/// deduplication key), and the output artifact when one is known.
pub struct Record {
    pub directory: String,
    pub command: String,
    pub file: String,
    pub output: Option<String>,
}

/// The mathematical shape of a `Record`: each text field as a sequence of
/// characters.
pub struct RecordV {
    pub directory: Seq<char>,
    pub command: Seq<char>,
    pub file: Seq<char>,
    pub output: Option<Seq<char>>,
}

impl View for Record {
    type V = RecordV;

    open spec fn view(&self) -> RecordV {
        RecordV {
            directory: self.directory@,
            command: self.command@,
            file: self.file@,
            output: match self.output {
                Some(s) => Some(s@),
                None => None,
            },
        }
    }
}

impl Record {
    /// The deduplication key of this record: its source-file path.
    pub fn key(&self) -> (r: &String)
        ensures
            r@ == self@.file,
    {
        &self.file
    }
}

} // verus!
