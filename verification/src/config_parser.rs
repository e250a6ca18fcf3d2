//! A configuration file read as options and values, with no defaults.
use vstd::prelude::*;
use crate::conftable::{ConfTable, put, read_lines, matching_lines};
use crate::databasehelper::{SuccessQuery, DataBaseError, QueryView, result_view};
use crate::server_conf::option_value;
use crate::text::{spec_parse_u32, parse_u32};
use crate::strvec::strs_view;

verus! {

/// The options and values of a configuration file.
pub struct ConfigParser {
    data: ConfTable,
}

impl View for ConfigParser {
    type V = Seq<(Seq<char>, Seq<char>)>;

    closed spec fn view(&self) -> Seq<(Seq<char>, Seq<char>)> {
        self.data@
    }
}

impl ConfigParser {
    /// No option occurs twice.
    pub closed spec fn wf(&self) -> bool {
        self.data.wf()
    }

    /// The lines `option = value` of a configuration file, read in turn;
    /// fails with `Invalid format config file` on a line of another form.
    pub fn new(lines: Vec<&str>) -> (r: Result<ConfigParser, String>)
        ensures
            match r {
                Ok(c) => c.wf() && read_lines(Seq::empty(), strs_view(lines@)) == Some(c@),
                Err(e) => read_lines(Seq::empty(), strs_view(lines@)) is None && e@
                    == "Invalid format config file"@,
            },
    {
        let mut data = ConfTable::new();
        match data.read(&lines) {
            Ok(_) => Ok(ConfigParser { data }),
            Err(e) => Err(e),
        }
    }

    /// The value of option `k`, or `There's no <k> field`.
    pub fn get(&self, k: &str) -> (r: Result<String, String>)
        requires
            self.wf(),
        ensures
            match option_value(self@, k@) {
                Some(v) => r is Ok && r->Ok_0@ == v,
                None => r is Err && r->Err_0@ == "There's no "@ + k@ + " field"@,
            },
    {
        match self.data.get(k) {
            Some(value) => Ok(value.clone()),
            None => {
                let mut e = String::from_str("There's no ");
                e.append(k);
                e.append(" field");
                Err(e)
            },
        }
    }

    /// The value of option `k` as a `u32`; `Invalid value for <k>` when it
    /// is not one, `There's no <k> field` when the option is not set.
    pub fn getu32(&self, k: &str) -> (r: Result<u32, String>)
        requires
            self.wf(),
        ensures
            match option_value(self@, k@) {
                Some(v) => match spec_parse_u32(v) {
                    Some(n) => r == Ok::<u32, String>(n),
                    None => r is Err && r->Err_0@ == "Invalid value for "@ + k@,
                },
                None => r is Err && r->Err_0@ == "There's no "@ + k@ + " field"@,
            },
    {
        match self.data.get(k) {
            Some(value) => match parse_u32(value.as_str()) {
                Some(v) => Ok(v),
                None => {
                    let mut e = String::from_str("Invalid value for ");
                    e.append(k);
                    Err(e)
                },
            },
            None => {
                let mut e = String::from_str("There's no ");
                e.append(k);
                e.append(" field");
                Err(e)
            },
        }
    }

    /// The lines `option: value` of the options that match `pattern`;
    /// `NonExistentConfigOption` when none does.
    pub fn get_config(&self, pattern: &str) -> (r: Result<SuccessQuery, DataBaseError>)
        requires
            self.wf(),
        ensures
            ({
                let lines = matching_lines(self@, pattern@);
                if lines.len() == 0 {
                    r == Err::<SuccessQuery, DataBaseError>(
                        DataBaseError::NonExistentConfigOption,
                    )
                } else {
                    result_view(r) == Ok::<QueryView, DataBaseError>(
                        QueryView::List(lines.map_values(|x: Seq<char>| QueryView::Str(x))),
                    )
                }
            }),
    {
        let found = self.data.matching(pattern);
        if found.len() == 0 {
            return Err(DataBaseError::NonExistentConfigOption);
        }
        let ghost lines = matching_lines(self@, pattern@);
        let mut list: Vec<SuccessQuery> = Vec::new();
        let mut i: usize = 0;
        while i < found.len()
            invariant
                i <= found@.len(),
                found@.len() == lines.len(),
                forall|q: int| 0 <= q < found@.len() ==> (#[trigger] found@[q])@ == lines[q],
                list@.len() == i,
                forall|q: int| 0 <= q < i ==> (#[trigger] list@[q])@ == QueryView::Str(lines[q]),
            decreases found.len() - i,
        {
            list.push(SuccessQuery::String(found[i].clone()));
            i = i + 1;
        }
        proof {
            crate::databasehelper::lemma_list_view(list);
            assert(crate::databasehelper::list_view(list@) =~= lines.map_values(
                |x: Seq<char>| QueryView::Str(x),
            ));
        }
        Ok(SuccessQuery::List(list))
    }

    /// Sets an option that is set to `new_value`; `NonExistentConfigOption`
    /// for another.
    pub fn set_config(&mut self, option: &str, new_value: &str) -> (r: Result<
        SuccessQuery,
        DataBaseError,
    >)
        requires
            old(self).wf(),
        ensures
            final(self).wf(),
            if option_value(old(self)@, option@) is Some {
                result_view(r) == Ok::<QueryView, DataBaseError>(QueryView::Success)
                    && final(self)@ == put(old(self)@, option@, new_value@)
            } else {
                r == Err::<SuccessQuery, DataBaseError>(DataBaseError::NonExistentConfigOption)
                    && final(self)@ == old(self)@
            },
    {
        if self.data.get(option).is_some() {
            self.data.insert(option, new_value);
            return Ok(SuccessQuery::Success);
        }
        Err(DataBaseError::NonExistentConfigOption)
    }
}

} // verus!
