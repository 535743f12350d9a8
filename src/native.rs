//! The native entry points that the extension can export.
use vstd::prelude::*;
use vstd::string::StringExecFns;

verus! {

/// An opaque reference to a native callable.
#[derive(Clone, Copy, Debug, PartialEq, Eq, Structural)]
pub enum Native {
    /// Builds a greeting for its single string argument.
    Hello,
}

/// The greeting that `hello` builds for `subject`.
pub open spec fn greeting(subject: Seq<char>) -> Seq<char> {
    "Hello from Rust, "@ + subject + "!"@
}

/// Returns `"Hello from Rust, {subject}!"`.
pub fn hello(subject: &str) -> (r: String)
    ensures
        r@ == greeting(subject@),
{
    let mut r = String::from_str("Hello from Rust, ");
    r.append(subject);
    r.append("!");
    r
}

impl Native {
    /// The number of parameters the native callable declares.
    pub open spec fn spec_param_count(self) -> nat {
        match self {
            Native::Hello => 1,
        }
    }

    /// What the callable returns for arguments of the declared count.
    pub open spec fn spec_run(self, args: Seq<Seq<char>>) -> Seq<char> {
        match self {
            Native::Hello => greeting(args[0]),
        }
    }

    pub fn param_count(&self) -> (r: usize)
        ensures
            r == self.spec_param_count(),
    {
        match self {
            Native::Hello => 1,
        }
    }

    /// Runs the callable on exactly as many arguments as it declares.
    pub fn run(&self, args: &Vec<String>) -> (r: String)
        requires
            args.len() == self.spec_param_count(),
        ensures
            r@ == self.spec_run(args@.map_values(|s: String| s@)),
    {
        match self {
            Native::Hello => hello(args[0].as_str()),
        }
    }
}

} // verus!
