use archgraph::imports::{python_imports, script_imports};

#[test]
fn reads_absolute_relative_aliased_dynamic_and_type_checking_imports() {
    let facts = python_imports(
        "x.py",
        "from __future__ import annotations\n\
         import numpy as np, os.path\n\
         from ortools.constraint_solver import pywrapcp, routing_enums_pb2\n\
         from . import sibling\n\
         from ..core.models import Plan\n\
         from typing import TYPE_CHECKING\n\
         if TYPE_CHECKING:\n    from pandas import DataFrame\nelse:\n    import json\n\
         def load():\n    import yaml\n    return importlib.import_module('plugins.' + name), __import__('toml')\n\
         importlib.import_module(\n    # the plugin\n    'plugin'\n)\n",
    )
    .unwrap();
    let imports: Vec<(usize, &str, bool)> =
        facts.imports.iter().map(|import| (import.line, import.specifier.as_str(), import.type_only)).collect();
    assert_eq!(
        imports,
        [
            (2, "numpy", false),
            (2, "os.path", false),
            (3, "ortools.constraint_solver", false),
            (4, ".", false),
            (5, "..core.models", false),
            (6, "typing", false),
            (8, "pandas", true),
            (10, "json", false),
            (12, "yaml", false),
            (13, "toml", false),
            (14, "plugin", false),
        ]
    );
    assert_eq!(facts.unresolved, [(13, "importlib.import_module('plugins.' + name)".to_owned())]);
}

#[test]
fn reads_static_type_only_re_exported_dynamic_and_required_specifiers() {
    let facts = script_imports(
        "x.tsx",
        "import React, { useState } from 'react'\n\
         import type { Feature } from 'geojson'\n\
         import { type LatLon, orderPoint } from '../geo'\n\
         import 'leaflet/dist/leaflet.css'\n\
         export * from '@tanstack/react-query'\n\
         export type { Props } from './props'\n\
         const lazy = await import('chart.js')\n\
         const fs = require(`fs`)\n\
         import legacy = require('legacy-lib')\n\
         const plugin = import(name)\n\
         require.resolve('not-a-load')\n\
         const view = import(\n  // a comment first\n  '#mobile/View.vue'\n)\n",
    )
    .unwrap();
    let imports: Vec<(usize, &str, bool)> =
        facts.imports.iter().map(|import| (import.line, import.specifier.as_str(), import.type_only)).collect();
    assert_eq!(
        imports,
        [
            (1, "react", false),
            (2, "geojson", true),
            (3, "../geo", false),
            (4, "leaflet/dist/leaflet.css", false),
            (5, "@tanstack/react-query", false),
            (6, "./props", true),
            (7, "chart.js", false),
            (8, "fs", false),
            (9, "legacy-lib", false),
            (12, "#mobile/View.vue", false),
        ]
    );
    assert_eq!(facts.unresolved, [(10, "import(name)".to_owned())]);
}
