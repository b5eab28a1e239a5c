use vstd::prelude::*;

verus! {

// ---------------------------------------------------------------------------
// The external minification preprocessor
// ---------------------------------------------------------------------------

/// A handle on the external minifying preprocessor tool: the path of its
/// executable. Locating and running the tool is the surrounding program's
/// work; this library only decides the command line.
pub struct Minime {
    pub preprocessor: String,
}

impl Minime {
    pub fn new(preprocessor: String) -> (r: Minime)
        ensures
            r.preprocessor@ == preprocessor@,
    {
        Minime { preprocessor }
    }

    /// The arguments the tool is invoked with for the given source file:
    /// the camera define when the integration is active, then `-stdout` and
    /// the source path.
    pub fn preprocess_args(&self, source: String, camera_integration: bool) -> (r: Vec<String>)
        ensures
            camera_integration ==> r.deep_view() == seq![
                "-D"@,
                "USE_SKUGGBOX_CAMERA"@,
                "-stdout"@,
                source@,
            ],
            !camera_integration ==> r.deep_view() == seq!["-stdout"@, source@],
    {
        let mut args: Vec<String> = Vec::new();
        if camera_integration {
            args.push(String::from_str("-D"));
            args.push(String::from_str("USE_SKUGGBOX_CAMERA"));
        }
        args.push(String::from_str("-stdout"));
        args.push(source);
        proof {
            if camera_integration {
                assert(args.deep_view() =~= seq![
                    "-D"@,
                    "USE_SKUGGBOX_CAMERA"@,
                    "-stdout"@,
                    source@,
                ]);
            } else {
                assert(args.deep_view() =~= seq!["-stdout"@, source@]);
            }
        }
        args
    }
}

} // verus!
