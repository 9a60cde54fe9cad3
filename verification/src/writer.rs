use vstd::prelude::*;

verus! {

#[verifier::external_type_specification]
#[verifier::external_body]
pub struct ExIoError(std::io::Error);

/// A sink that text is written to, piece by piece.
///
/// `calls` are the arguments of every `write_str` call made on the sink,
/// oldest first, whether the call succeeded or not. `written` is the text
/// that the sink holds: a successful `write_str` appends its argument to it.
/// `errors` are the errors that the sink's writes have reported, oldest
/// first: a failed `write_str` reports its error there, a successful one
/// reports nothing. After a failed write nothing is known of what the sink
/// holds.
///
/// The specification functions have closed defaults, so that a sink written
/// in plain Rust, which cannot define them, need only define `write_str`.
/// The contract of `write_str` is not true of such a sink under those
/// defaults as soon as it is called: what is proved through `StrWrite` holds
/// of sinks whose `write_str` is verified against it (`StringWrap`), and is
/// assumed, unchecked, of the others.
pub trait StrWrite {
    closed spec fn written(&self) -> Seq<char> {
        Seq::empty()
    }

    closed spec fn errors(&self) -> Seq<std::io::Error> {
        Seq::empty()
    }

    closed spec fn calls(&self) -> Seq<Seq<char>> {
        Seq::empty()
    }

    fn write_str(&mut self, s: &str) -> (r: Result<(), std::io::Error>)
        ensures
            final(self).calls() == old(self).calls().push(s@),
            r is Ok ==> final(self).written() == old(self).written() + s@,
            reported(r, old(self).errors(), final(self).errors()),
    ;
}

/// What a sequence of writes returned, given the sink's error reports
/// `before` and `after` it: `Ok` exactly when no write failed, and otherwise
/// the one error that the sink reported, the only failure among the writes.
pub open spec fn reported(
    r: Result<(), std::io::Error>,
    before: Seq<std::io::Error>,
    after: Seq<std::io::Error>,
) -> bool {
    match r {
        Ok(_) => after == before,
        Err(e) => after == before.push(e),
    }
}

/// A `String` as a sink that never fails: every write is appended to it.
/// `log` records the calls made on it.
pub struct StringWrap {
    pub text: String,
    pub log: Ghost<Seq<Seq<char>>>,
}

impl StringWrap {
    /// A sink holding `text`, on which no call was made yet.
    pub fn new(text: String) -> (r: Self)
        ensures
            r.written() == text@,
            r.calls() == Seq::<Seq<char>>::empty(),
    {
        StringWrap { text, log: Ghost(Seq::empty()) }
    }

    /// The text the sink holds.
    pub fn into_string(self) -> (r: String)
        ensures
            r@ == self.written(),
    {
        self.text
    }

    /// The text the sink holds.
    pub fn as_str(&self) -> (r: &str)
        ensures
            r@ == self.written(),
    {
        self.text.as_str()
    }
}

impl StrWrite for StringWrap {
    open spec fn written(&self) -> Seq<char> {
        self.text@
    }

    open spec fn errors(&self) -> Seq<std::io::Error> {
        Seq::empty()
    }

    open spec fn calls(&self) -> Seq<Seq<char>> {
        self.log@
    }

    fn write_str(&mut self, s: &str) -> (r: Result<(), std::io::Error>)
        ensures
            r is Ok,
    {
        self.text.append(s);
        proof {
            self.log@ = self.log@.push(s@);
        }
        Ok(())
    }
}

} // verus!
