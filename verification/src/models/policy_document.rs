//! Access policy documents handed back by an authorizer.

use vstd::prelude::*;

verus! {

/// Context attached to an authorizer response: the cookie to set.
#[allow(non_snake_case)]
pub struct AuthorizerContext {
    pub Set_Cookie: String,
}

/// One policy statement: an action, whether it is allowed or denied, and
/// the resource it applies to.
#[allow(non_snake_case)]
pub struct PolicyDocumentStatement {
    pub Action: String,
    pub Effect: String,
    pub Resource: String,
}

/// The body of a policy document: a version tag and its statements.
#[allow(non_snake_case)]
pub struct PolicyDocumentBody {
    pub Version: String,
    pub Statement: Vec<PolicyDocumentStatement>,
}

/// A full policy document for one principal.
#[allow(non_snake_case)]
pub struct PolicyDocument {
    pub principalId: String,
    pub policyDocument: PolicyDocumentBody,
    pub context: Option<AuthorizerContext>,
}

/// Builds the policy document that grants or denies one principal the
/// invoke action on one resource: a single statement under the fixed policy
/// version, with the given context passed through.
pub fn generate_document(
    principal_id: &str,
    context: Option<AuthorizerContext>,
    effect: &str,
    resource: &str,
) -> (r: PolicyDocument)
    ensures
        r.principalId@ == principal_id@,
        r.policyDocument.Version@ == "2012-10-17"@,
        r.policyDocument.Statement@.len() == 1,
        r.policyDocument.Statement@[0].Action@ == "execute-api:Invoke"@,
        r.policyDocument.Statement@[0].Effect@ == effect@,
        r.policyDocument.Statement@[0].Resource@ == resource@,
        r.context == context,
{
    let mut statements: Vec<PolicyDocumentStatement> = Vec::new();
    statements.push(
        PolicyDocumentStatement {
            Action: String::from_str("execute-api:Invoke"),
            Effect: effect.to_owned(),
            Resource: resource.to_owned(),
        },
    );
    PolicyDocument {
        principalId: principal_id.to_owned(),
        policyDocument: PolicyDocumentBody {
            Version: String::from_str("2012-10-17"),
            Statement: statements,
        },
        context,
    }
}

} // verus!
