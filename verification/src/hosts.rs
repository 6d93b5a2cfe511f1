//! DNS-over-HTTPS providers, the query URLs sent to them, and the address
//! records picked out of their answers, for writing a hosts file.
use vstd::prelude::*;

verus! {

/// Whether two strings hold the same text.
fn same_text(a: &str, b: &str) -> (eq: bool)
    ensures
        eq == (a@ == b@),
{
    a.to_owned() == b.to_owned()
}

/// A DNS-over-HTTPS service, by well-known name or by address.
#[derive(Debug)]
pub enum Provider {
    Cf1,
    Cf2,
    Dnspod,
    Ali1,
    Ali2,
    Custom(String),
}

/// The name by which a well-known provider is chosen.
pub open spec fn provider_name(p: Provider) -> Seq<char> {
    match p {
        Provider::Cf1 => "cf1"@,
        Provider::Cf2 => "cf2"@,
        Provider::Dnspod => "dnspod"@,
        Provider::Ali1 => "ali1"@,
        Provider::Ali2 => "ali2"@,
        Provider::Custom(s) => s@,
    }
}

/// `s` is the name of a well-known provider.
pub open spec fn is_known_provider_name(s: Seq<char>) -> bool {
    s == "cf1"@ || s == "cf2"@ || s == "dnspod"@ || s == "ali1"@ || s == "ali2"@
}

/// The IPv4 address of the provider's service.
pub open spec fn provider_ipv4(p: Provider) -> Seq<char> {
    match p {
        Provider::Cf1 => "1.1.1.1"@,
        Provider::Cf2 => "1.0.0.1"@,
        Provider::Dnspod => "1.12.12.12"@,
        Provider::Ali1 => "223.5.5.5"@,
        Provider::Ali2 => "223.6.6.6"@,
        Provider::Custom(s) => s@,
    }
}

/// The path of the provider's JSON query endpoint.
pub open spec fn provider_word(p: Provider) -> Seq<char> {
    match p {
        Provider::Ali1 | Provider::Ali2 => "resolve"@,
        _ => "dns-query"@,
    }
}

/// `https://{ipv4}/{word}?name=`
pub open spec fn url_prefix_of(p: Provider) -> Seq<char> {
    "https://"@ + provider_ipv4(p) + "/"@ + provider_word(p) + "?name="@
}

impl Provider {
    /// The provider with the given well-known name; any other text is taken
    /// as the address of a custom provider.
    pub fn parse(s: &str) -> (p: Provider)
        ensures
            provider_name(p) == s@,
            p is Custom <==> !is_known_provider_name(s@),
            s@ == "cf1"@ ==> p is Cf1,
            s@ == "cf2"@ ==> p is Cf2,
            s@ == "dnspod"@ ==> p is Dnspod,
            s@ == "ali1"@ ==> p is Ali1,
            s@ == "ali2"@ ==> p is Ali2,
    {
        proof {
            lemma_known_names_distinct();
        }
        if same_text(s, "cf1") {
            Provider::Cf1
        } else if same_text(s, "cf2") {
            Provider::Cf2
        } else if same_text(s, "dnspod") {
            Provider::Dnspod
        } else if same_text(s, "ali1") {
            Provider::Ali1
        } else if same_text(s, "ali2") {
            Provider::Ali2
        } else {
            Provider::Custom(s.to_owned())
        }
    }

    pub fn ipv4(&self) -> (a: &str)
        ensures
            a@ == provider_ipv4(*self),
    {
        match self {
            Provider::Cf1 => "1.1.1.1",
            Provider::Cf2 => "1.0.0.1",
            Provider::Dnspod => "1.12.12.12",
            Provider::Ali1 => "223.5.5.5",
            Provider::Ali2 => "223.6.6.6",
            Provider::Custom(ipv4) => ipv4.as_str(),
        }
    }

    pub fn word(&self) -> (w: &'static str)
        ensures
            w@ == provider_word(*self),
            (*self is Ali1 || *self is Ali2) ==> w@ == "resolve"@,
            !(*self is Ali1 || *self is Ali2) ==> w@ == "dns-query"@,
    {
        match self {
            Provider::Cf1 | Provider::Cf2 | Provider::Dnspod | Provider::Custom(_) => "dns-query",
            Provider::Ali1 | Provider::Ali2 => "resolve",
        }
    }

    /// The start of every query URL: the domain name is appended to it.
    pub fn build_url_prefix(&self) -> (url: String)
        ensures
            url@ == url_prefix_of(*self),
    {
        let mut url = String::from_str("https://");
        url.append(self.ipv4());
        url.append("/");
        url.append(self.word());
        url.append("?name=");
        url
    }
}

impl core::str::FromStr for Provider {
    type Err = core::convert::Infallible;

    fn from_str(s: &str) -> (res: Result<Self, Self::Err>)
        ensures
            res matches Ok(p) && provider_name(p) == s@ && (p is Custom <==> !is_known_provider_name(
                s@,
            )),
    {
        Ok(Provider::parse(s))
    }
}

/// Where the domain names come from.
#[derive(Debug, Clone, Copy)]
pub enum InputType {
    List,
    Args,
}

impl InputType {
    /// `list` or `args`; any other text is refused.
    pub fn parse(s: &str) -> (t: Result<InputType, ()>)
        ensures
            t == Ok::<InputType, ()>(InputType::List) <==> s@ == "list"@,
            t == Ok::<InputType, ()>(InputType::Args) <==> s@ == "args"@,
            t is Err <==> s@ != "list"@ && s@ != "args"@,
    {
        proof {
            reveal_strlit("list");
            reveal_strlit("args");
            assert("list"@[0] != "args"@[0]);
        }
        if same_text(s, "list") {
            Ok(InputType::List)
        } else if same_text(s, "args") {
            Ok(InputType::Args)
        } else {
            Err(())
        }
    }
}

impl core::str::FromStr for InputType {
    type Err = ();

    fn from_str(s: &str) -> (t: Result<Self, Self::Err>)
        ensures
            t == Ok::<InputType, ()>(InputType::List) <==> s@ == "list"@,
            t == Ok::<InputType, ()>(InputType::Args) <==> s@ == "args"@,
            t is Err <==> s@ != "list"@ && s@ != "args"@,
    {
        InputType::parse(s)
    }
}

/// The URL that queries `line`: the line (a domain name, with whatever line
/// ending it was read with) after the provider's URL prefix.
pub fn request_url(url_prefix: &str, line: &str) -> (url: String)
    ensures
        url@ == url_prefix@ + line@,
{
    let mut url = String::from_str(url_prefix);
    url.append(line);
    url
}

/// Record type of an IPv4 address record.
pub const A_RECORD: u16 = 1;

/// One record of a DNS JSON answer.
#[derive(Debug)]
pub struct DnsAnswer {
    pub ty: u16,
    pub data: String,
}

/// A DNS JSON answer: its response code and its records.
#[derive(Debug)]
pub struct DnsRes {
    pub status: u8,
    pub answer: Vec<DnsAnswer>,
}

/// The data of the address records among `answers`, in order.
pub open spec fn a_record_data(answers: Seq<DnsAnswer>) -> Seq<Seq<char>>
    decreases answers.len(),
{
    if answers.len() == 0 {
        Seq::empty()
    } else {
        let rest = a_record_data(answers.drop_last());
        if answers.last().ty == A_RECORD {
            rest.push(answers.last().data@)
        } else {
            rest
        }
    }
}

/// The data (an address) of every address record of an answer, in order.
pub fn address_records(res: &DnsRes) -> (data: Vec<String>)
    ensures
        data@.map_values(|s: String| s@) == a_record_data(res.answer@),
        data@.map_values(|s: String| s@) == res.answer@.filter(|a: DnsAnswer| a.ty == 1u16).map_values(
            |a: DnsAnswer| a.data@,
        ),
{
    proof {
        lemma_address_records_are_type_one(res.answer@);
    }
    let mut data: Vec<String> = Vec::new();
    let mut i: usize = 0;
    while i < res.answer.len()
        invariant
            i <= res.answer@.len(),
            data@.map_values(|s: String| s@) == a_record_data(res.answer@.take(i as int)),
        decreases res.answer@.len() - i,
    {
        assert(res.answer@.take(i + 1).drop_last() =~= res.answer@.take(i as int));
        let answer = &res.answer[i];
        if answer.ty == A_RECORD {
            let ghost before = data@;
            data.push(answer.data.clone());
            assert(data@.map_values(|s: String| s@) =~= before.map_values(|s: String| s@).push(
                answer.data@,
            ));
        }
        i = i + 1;
    }
    assert(res.answer@.take(res.answer@.len() as int) =~= res.answer@);
    data
}

proof fn lemma_known_names_distinct()
    ensures
        "cf1"@ != "cf2"@,
        "cf1"@ != "dnspod"@,
        "cf1"@ != "ali1"@,
        "cf1"@ != "ali2"@,
        "cf2"@ != "dnspod"@,
        "cf2"@ != "ali1"@,
        "cf2"@ != "ali2"@,
        "dnspod"@ != "ali1"@,
        "dnspod"@ != "ali2"@,
        "ali1"@ != "ali2"@,
{
    reveal_strlit("cf1");
    reveal_strlit("cf2");
    reveal_strlit("dnspod");
    reveal_strlit("ali1");
    reveal_strlit("ali2");
    assert("cf1"@[2] != "cf2"@[2]);
    assert("ali1"@[3] != "ali2"@[3]);
    assert("cf1"@[0] != "dnspod"@[0]);
    assert("cf1"@[0] != "ali1"@[0]);
    assert("cf1"@[0] != "ali2"@[0]);
    assert("cf2"@[0] != "dnspod"@[0]);
    assert("cf2"@[0] != "ali1"@[0]);
    assert("cf2"@[0] != "ali2"@[0]);
    assert("dnspod"@[0] != "ali1"@[0]);
    assert("dnspod"@[0] != "ali2"@[0]);
}

/// Each well-known name belongs to its own provider: a well-known provider
/// is named `cf1`, `cf2`, `dnspod`, `ali1` or `ali2` exactly when it is
/// `Cf1`, `Cf2`, `Dnspod`, `Ali1` or `Ali2` respectively.
pub proof fn lemma_provider_names(p: Provider)
    requires
        !(p is Custom),
    ensures
        provider_name(p) == "cf1"@ <==> p is Cf1,
        provider_name(p) == "cf2"@ <==> p is Cf2,
        provider_name(p) == "dnspod"@ <==> p is Dnspod,
        provider_name(p) == "ali1"@ <==> p is Ali1,
        provider_name(p) == "ali2"@ <==> p is Ali2,
{
    lemma_known_names_distinct();
}

/// The query endpoint is `resolve` for the two Ali providers and
/// `dns-query` for every other provider, custom ones included.
pub proof fn lemma_endpoint_word(p: Provider)
    ensures
        (p is Ali1 || p is Ali2) ==> provider_word(p) == "resolve"@,
        !(p is Ali1 || p is Ali2) ==> provider_word(p) == "dns-query"@,
        (p is Ali1 || p is Ali2) ==> url_prefix_of(p) == "https://"@ + provider_ipv4(p) + "/resolve?name="@,
{
    reveal_strlit("/");
    reveal_strlit("resolve");
    reveal_strlit("?name=");
    reveal_strlit("/resolve?name=");
    assert("/"@ + "resolve"@ + "?name="@ =~= "/resolve?name="@);
    assert(("https://"@ + provider_ipv4(p)) + ("/"@ + "resolve"@ + "?name="@) =~= "https://"@ + provider_ipv4(p)
        + "/"@ + "resolve"@ + "?name="@);
}

/// The address records are exactly the answers of type 1, in order, each
/// given by its data.
pub proof fn lemma_address_records_are_type_one(answers: Seq<DnsAnswer>)
    ensures
        a_record_data(answers) == answers.filter(|a: DnsAnswer| a.ty == 1u16).map_values(
            |a: DnsAnswer| a.data@,
        ),
    decreases answers.len(),
{
    reveal_with_fuel(Seq::<_>::filter, 1);
    if answers.len() > 0 {
        lemma_address_records_are_type_one(answers.drop_last());
        let pred = |a: DnsAnswer| a.ty == 1u16;
        let f = |a: DnsAnswer| a.data@;
        let rest = answers.drop_last().filter(pred);
        if answers.last().ty == 1u16 {
            assert(answers.filter(pred) == rest.push(answers.last()));
            assert(rest.push(answers.last()).map_values(f) =~= rest.map_values(f).push(answers.last().data@));
        } else {
            assert(answers.filter(pred) == rest);
        }
    } else {
        assert(answers.filter(|a: DnsAnswer| a.ty == 1u16).map_values(|a: DnsAnswer| a.data@) =~= Seq::<
            Seq<char>,
        >::empty());
    }
}

/// Well-known providers have distinct names, so reading a well-known
/// provider's name gives back that provider.
pub proof fn lemma_known_provider_names_distinct(p: Provider, q: Provider)
    requires
        !(p is Custom),
        !(q is Custom),
        provider_name(p) == provider_name(q),
    ensures
        p == q,
        is_known_provider_name(provider_name(p)),
{
    reveal_strlit("cf1");
    reveal_strlit("cf2");
    reveal_strlit("dnspod");
    reveal_strlit("ali1");
    reveal_strlit("ali2");
    assert("cf1"@[2] != "cf2"@[2]);
    assert("ali1"@[3] != "ali2"@[3]);
    assert("cf1"@[0] != "dnspod"@[0]);
    assert("cf1"@[0] != "ali1"@[0]);
    assert("cf1"@[0] != "ali2"@[0]);
    assert("cf2"@[0] != "dnspod"@[0]);
    assert("cf2"@[0] != "ali1"@[0]);
    assert("cf2"@[0] != "ali2"@[0]);
    assert("dnspod"@[0] != "ali1"@[0]);
    assert("dnspod"@[0] != "ali2"@[0]);
}

} // verus!
