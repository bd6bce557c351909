//! Which kinds of search a query runs.

use vstd::prelude::*;

verus! {

/// A kind of search.
#[derive(PartialEq, Eq, Structural, Clone, Copy, Debug)]
pub enum OptionType {
    TfIdf,
    Vector,
    Bm25,
}

/// The kinds of search that a query runs, each listed once, in the order in
/// which they were added.
pub struct QueryOption {
    options: Vec<OptionType>,
}

/// `options` with `option` added at its end, unless it is listed already.
pub open spec fn with_option(options: Seq<OptionType>, option: OptionType) -> Seq<OptionType> {
    if options.contains(option) {
        options
    } else {
        options.push(option)
    }
}

/// Law: adding a kind that is listed changes nothing, so adding a kind
/// twice is adding it once; adding keeps every kind listed once.
pub proof fn law_add_option_idempotent(options: Seq<OptionType>, option: OptionType)
    ensures
        with_option(with_option(options, option), option) == with_option(options, option),
        options.no_duplicates() ==> with_option(options, option).no_duplicates(),
        with_option(options, option).contains(option),
{
    if !options.contains(option) {
        assert(options.push(option)[options.len() as int] == option);
    }
}

/// Law: adding a kind keeps the listed kinds in place, in their order,
/// and appends the added kind at the end exactly when it was not listed.
pub proof fn law_add_option_appends(options: Seq<OptionType>, option: OptionType)
    ensures
        with_option(options, option).take(options.len() as int) == options,
        options.contains(option) ==> with_option(options, option).len() == options.len(),
        !options.contains(option) ==> with_option(options, option).len() == options.len() + 1
            && with_option(options, option).last() == option,
{
    if !options.contains(option) {
        assert(options.push(option).take(options.len() as int) == options);
    } else {
        assert(options.take(options.len() as int) == options);
    }
}

/// Lemma: a list of kinds of search with no kind listed twice lists at most
/// three kinds.
pub proof fn lemma_at_most_three(options: Seq<OptionType>)
    requires
        options.no_duplicates(),
    ensures
        options.len() <= 3,
{
    let all = set![OptionType::TfIdf, OptionType::Vector, OptionType::Bm25];
    assert(all.len() == 3);
    assert(options.to_set().subset_of(all)) by {
        assert forall|o: OptionType| options.to_set().contains(o) implies all.contains(o) by {
            match o {
                OptionType::TfIdf => {},
                OptionType::Vector => {},
                OptionType::Bm25 => {},
            }
        }
    }
    vstd::set_lib::lemma_len_subset(options.to_set(), all);
    options.unique_seq_to_set();
}

impl QueryOption {
    /// No kind is listed twice.
    #[verifier::type_invariant]
    spec fn listed_once(self) -> bool {
        self.options@.no_duplicates()
    }

    /// An option set that lists no kind of search.
    pub fn new() -> (r: Self)
        ensures
            r@ == Seq::<OptionType>::empty(),
    {
        QueryOption { options: Vec::new() }
    }

    /// List `option`, unless it is listed already; returns the option set
    /// for chaining.
    pub fn add(&mut self, option: OptionType) -> (r: &mut Self)
        ensures
            r@ == with_option(old(self)@, option),
            *final(self) == *final(r),
    {
        proof {
            use_type_invariant(&*self);
        }
        let mut found = false;
        let n = self.options.len();
        let mut i: usize = 0;
        while i < n
            invariant
                n == self.options.len(),
                i <= n,
                found == exists|q: int| 0 <= q < i && self.options@[q] == option,
            decreases n - i,
        {
            if self.options[i] == option {
                found = true;
            }
            i = i + 1;
        }
        if !found {
            proof {
                law_add_option_idempotent(self.options@, option);
            }
            let mut options: Vec<OptionType> = Vec::new();
            std::mem::swap(&mut options, &mut self.options);
            options.push(option);
            self.options = options;
        }
        self
    }

    /// A copy of this option set.
    pub fn build(&mut self) -> (r: Self)
        ensures
            r@ == old(self)@,
            *final(self) == *old(self),
    {
        self.clone()
    }

    /// The listed kinds of search, in the order of their first addition:
    /// each at most once, so at most three of them.
    pub fn get_options(&self) -> (r: &Vec<OptionType>)
        ensures
            r@ == self@,
            r@.no_duplicates(),
            r@.len() <= 3,
    {
        proof {
            use_type_invariant(self);
            lemma_at_most_three(self.options@);
        }
        &self.options
    }
}

impl Clone for QueryOption {
    /// A copy of this option set.
    fn clone(&self) -> (r: Self)
        ensures
            r@ == self@,
    {
        proof {
            use_type_invariant(self);
        }
        let mut options: Vec<OptionType> = Vec::new();
        let n = self.options.len();
        let mut i: usize = 0;
        while i < n
            invariant
                n == self.options.len(),
                i <= n,
                options@ == self.options@.take(i as int),
            decreases n - i,
        {
            options.push(self.options[i]);
            i = i + 1;
        }
        assert(self.options@.take(n as int) == self.options@);
        QueryOption { options }
    }
}

impl View for QueryOption {
    type V = Seq<OptionType>;

    /// The listed kinds of search.
    closed spec fn view(&self) -> Seq<OptionType> {
        self.options@
    }
}

impl Default for QueryOption {
    /// The option set that lists tf-idf search alone.
    fn default() -> (r: Self)
        ensures
            r@ == seq![OptionType::TfIdf],
    {
        let mut q = QueryOption::new();
        let r = q.add(OptionType::TfIdf).build();
        r
    }
}

} // verus!
