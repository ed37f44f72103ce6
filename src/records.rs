use vstd::prelude::*;

verus! {

/// Whether two texts are the same.
pub fn same_text(a: &str, b: &str) -> (r: bool)
    ensures
        r == (a@ == b@),
{
    a.to_owned() == b.to_owned()
}

/// The hardware family of a reader.
#[derive(Debug, Clone, Copy, PartialEq, Eq, Structural)]
pub enum ReaderKind {
    Zebra,
    Impinj,
    Rfid,
}

impl ReaderKind {
    /// The name under which the kind is stored.
    pub open spec fn spec_name(self) -> Seq<char> {
        match self {
            ReaderKind::Zebra => "zebra"@,
            ReaderKind::Impinj => "impinj"@,
            ReaderKind::Rfid => "rfid"@,
        }
    }

    pub fn name(&self) -> (r: &'static str)
        ensures
            r@ == self.spec_name(),
    {
        match self {
            ReaderKind::Zebra => "zebra",
            ReaderKind::Impinj => "impinj",
            ReaderKind::Rfid => "rfid",
        }
    }

    /// The kind stored under `name`, if any.
    pub fn from_name(name: &str) -> (r: Option<ReaderKind>)
        ensures
            match r {
                Some(k) => k.spec_name() == name@,
                None => forall|k: ReaderKind| k.spec_name() != name@,
            },
    {
        if same_text(name, "zebra") {
            Some(ReaderKind::Zebra)
        } else if same_text(name, "impinj") {
            Some(ReaderKind::Impinj)
        } else if same_text(name, "rfid") {
            Some(ReaderKind::Rfid)
        } else {
            None
        }
    }
}

/// A saved chip reader.
#[derive(Debug, Clone)]
pub struct Reader {
    pub id: u64,
    pub nickname: String,
    pub kind: ReaderKind,
    pub ip_address: String,
    pub port: u16,
}

impl Reader {
    pub fn duplicate(&self) -> (r: Reader)
        ensures
            r == *self,
    {
        Reader {
            id: self.id,
            nickname: self.nickname.clone(),
            kind: self.kind,
            ip_address: self.ip_address.clone(),
            port: self.port,
        }
    }
}

/// The family of a remote results service.
#[derive(Debug, Clone, Copy, PartialEq, Eq, Structural)]
pub enum ApiKind {
    ChronokeepCloud,
    ChronokeepSelfHosted,
    ChronokeepRemote,
    ChronokeepRemoteSelf,
}

impl ApiKind {
    /// The name under which the kind is stored.
    pub open spec fn spec_name(self) -> Seq<char> {
        match self {
            ApiKind::ChronokeepCloud => "chronokeep-cloud"@,
            ApiKind::ChronokeepSelfHosted => "chronokeep-self-hosted"@,
            ApiKind::ChronokeepRemote => "chronokeep-remote"@,
            ApiKind::ChronokeepRemoteSelf => "chronokeep-remote-self"@,
        }
    }

    pub fn name(&self) -> (r: &'static str)
        ensures
            r@ == self.spec_name(),
    {
        match self {
            ApiKind::ChronokeepCloud => "chronokeep-cloud",
            ApiKind::ChronokeepSelfHosted => "chronokeep-self-hosted",
            ApiKind::ChronokeepRemote => "chronokeep-remote",
            ApiKind::ChronokeepRemoteSelf => "chronokeep-remote-self",
        }
    }

    /// The kind stored under `name`, if any.
    pub fn from_name(name: &str) -> (r: Option<ApiKind>)
        ensures
            match r {
                Some(k) => k.spec_name() == name@,
                None => forall|k: ApiKind| k.spec_name() != name@,
            },
    {
        if same_text(name, "chronokeep-cloud") {
            Some(ApiKind::ChronokeepCloud)
        } else if same_text(name, "chronokeep-self-hosted") {
            Some(ApiKind::ChronokeepSelfHosted)
        } else if same_text(name, "chronokeep-remote") {
            Some(ApiKind::ChronokeepRemote)
        } else if same_text(name, "chronokeep-remote-self") {
            Some(ApiKind::ChronokeepRemoteSelf)
        } else {
            None
        }
    }

    /// Whether reads are uploaded to services of this kind.
    pub open spec fn spec_is_remote(self) -> bool {
        self == ApiKind::ChronokeepRemote || self == ApiKind::ChronokeepRemoteSelf
    }

    pub fn is_remote(&self) -> (r: bool)
        ensures
            r == self.spec_is_remote(),
    {
        *self == ApiKind::ChronokeepRemote || *self == ApiKind::ChronokeepRemoteSelf
    }
}

/// A saved remote results service.
#[derive(Debug, Clone)]
pub struct ResultsApi {
    pub id: u64,
    pub nickname: String,
    pub kind: ApiKind,
    pub token: String,
    pub uri: String,
}

impl ResultsApi {
    /// The key on which saved services are unique.
    pub open spec fn key(&self) -> (Seq<char>, Seq<char>) {
        (self.uri@, self.token@)
    }

    pub fn duplicate(&self) -> (r: ResultsApi)
        ensures
            r == *self,
    {
        ResultsApi {
            id: self.id,
            nickname: self.nickname.clone(),
            kind: self.kind,
            token: self.token.clone(),
            uri: self.uri.clone(),
        }
    }
}

} // verus!
