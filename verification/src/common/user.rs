use vstd::prelude::*;

verus! {

/// An identity as it appears in commit and reflog lines.
pub struct User {
    pub name: String,
    pub email: String,
}

/// The rendered identity: `name <email>`.
pub open spec fn user_chars(name: Seq<char>, email: Seq<char>) -> Seq<char> {
    name + seq![' ', '<'] + email + seq!['>']
}

impl User {
    /// Renders the identity as `name <email>`.
    pub fn render(&self) -> (r: String)
        ensures
            r@ == user_chars(self.name@, self.email@),
    {
        let mut out = String::new();
        out.append(self.name.as_str());
        let lt = " <";
        proof {
            reveal_strlit(" <");
            assert(lt@ =~= seq![' ', '<']);
        }
        out.append(lt);
        out.append(self.email.as_str());
        let gt = ">";
        proof {
            reveal_strlit(">");
            assert(gt@ =~= seq!['>']);
        }
        out.append(gt);
        assert(out@ =~= user_chars(self.name@, self.email@));
        out
    }
}

} // verus!
